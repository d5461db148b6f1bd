use vstd::prelude::*;

use crate::errors::RlistError;
use crate::store::{Store, StoreModel, TopicRow, TopicRowModel};

verus! {

/// The store after making sure one topic name exists, paired with the id the
/// name maps to: an existing name keeps its id, a new name is appended under
/// the next fresh id. Meaningful only when the id space suffices.
pub open spec fn spec_create_topic(s: StoreModel, name: Seq<char>) -> (StoreModel, int) {
    if s.has_topic_named(name) {
        (s, s.topic_id_named(name))
    } else {
        (
            s.with_topics(
                s.topics.push(TopicRowModel { topic_id: s.next_topic_id, name }),
                s.next_topic_id + 1,
            ),
            s.next_topic_id,
        )
    }
}

/// Insert-or-fetch over a sequence of topic names, processed left to right.
/// Yields the resulting store, one id per processed name in input order, and
/// whether the id space sufficed; when it did not, the store and the ids
/// reflect the names processed before exhaustion.
pub open spec fn spec_create_topics(s: StoreModel, names: Seq<Seq<char>>) -> (
    StoreModel,
    Seq<int>,
    bool,
)
    decreases names.len(),
{
    if names.len() == 0 {
        (s, Seq::empty(), true)
    } else {
        let (s1, ids1, ok1) = spec_create_topics(s, names.drop_last());
        if !ok1 {
            (s1, ids1, false)
        } else {
            let name = names.last();
            if !s1.has_topic_named(name) && s1.next_topic_id == i64::MAX {
                (s1, ids1, false)
            } else {
                let (s2, id) = spec_create_topic(s1, name);
                (s2, ids1.push(id), true)
            }
        }
    }
}

/// The topics linked to an entry: `(topic_id, topic_name)` pairs in link
/// order.
pub open spec fn spec_related_topics(s: StoreModel, entry_id: int) -> Seq<(int, Seq<char>)> {
    s.links.filter(|l: crate::store::LinkModel| l.entry_id == entry_id).map_values(
        |l: crate::store::LinkModel| (l.topic_id, s.topic_name_of_id(l.topic_id)),
    )
}

/// The topic repository: lookups and idempotent bulk creation of topic names.
pub struct DBTopic {}

impl DBTopic {
    /// Creates every topic name in `topics` that does not exist yet and
    /// returns one id per input name, in input order; duplicate and
    /// pre-existing names resolve to the id they already map to.
    pub fn create_many(store: &mut Store, topics: &Vec<String>) -> (r: Result<
        Vec<i64>,
        RlistError,
    >)
        requires
            old(store).wf(),
        ensures
            final(store).wf(),
            ({
                let (s2, ids, ok) = spec_create_topics(old(store)@, topics.deep_view());
                &&& final(store)@ == s2
                &&& ok ==> (r matches Ok(v) && v@.map_values(|x: i64| x as int) == ids)
                &&& !ok ==> (r matches Err(e) && e == RlistError::Infrastructure)
            }),
    {
        let ghost names = topics.deep_view();
        let mut ids: Vec<i64> = Vec::new();
        let mut i: usize = 0;
        proof {
            assert(names.take(0) =~= Seq::<Seq<char>>::empty());
        }
        while i < topics.len()
            invariant
                old(store).wf(),
                store.wf(),
                i <= topics.len(),
                names == topics.deep_view(),
                names.len() == topics.len(),
                spec_create_topics(old(store)@, names.take(i as int)) == (
                    store@,
                    ids@.map_values(|x: i64| x as int),
                    true,
                ),
            decreases topics.len() - i,
        {
            proof {
                assert(names.take(i + 1).drop_last() =~= names.take(i as int));
                assert(names.take(i + 1).last() == names[i as int]);
                assert(names[i as int] == topics[i as int]@);
            }
            let name = &topics[i];
            let found = store.find_topic_by_name(name.as_str());
            match found {
                Some(t) => {
                    let id = store.topics[t].topic_id;
                    proof {
                        let s1 = store@;
                        assert(s1.has_topic_named(name@));
                        let w = s1.topic_index_named(name@);
                        assert(0 <= w < s1.topics.len() && s1.topics[w].name == name@);
                        assert(w == t as int) by {
                            if w != t as int {
                                if w < t as int {
                                    assert(s1.topics[w].name != s1.topics[t as int].name);
                                } else {
                                    assert(s1.topics[t as int].name != s1.topics[w].name);
                                }
                            }
                        }
                        assert(spec_create_topic(s1, name@) == (s1, id as int));
                    }
                    ids.push(id);
                },
                None => {
                    if store.next_topic_id == i64::MAX {
                        proof {
                            let (s1, ids1, ok1) = spec_create_topics(
                                old(store)@,
                                names.take(i + 1),
                            );
                            assert(!ok1);
                            assert(s1 == store@);
                            lemma_create_topics_failure_sticks(old(store)@, names, i + 1);
                        }
                        return Err(RlistError::Infrastructure);
                    }
                    let id = store.next_topic_id;
                    let ghost s1 = store@;
                    store.topics.push(TopicRow { topic_id: id, name: name.clone() });
                    store.next_topic_id = store.next_topic_id + 1;
                    proof {
                        assert(store@.topics =~= s1.topics.push(
                            TopicRowModel { topic_id: id as int, name: name@ },
                        ));
                        assert(store@ == spec_create_topic(s1, name@).0);
                        assert(store@.wf()) by {
                            assert(forall|j: int|
                                0 <= j < s1.topics.len() ==> (#[trigger] store@.topics[j])
                                    == s1.topics[j]);
                            assert forall|a: int|
                                0 <= a < store@.links.len() implies store@.has_entry_id(
                                (#[trigger] store@.links[a]).entry_id,
                            ) && store@.has_topic_id(store@.links[a].topic_id) by {
                                assert(s1.links[a] == store@.links[a]);
                                assert(s1.has_topic_id(s1.links[a].topic_id));
                                let w = choose|k: int|
                                    0 <= k < s1.topics.len() && (#[trigger] s1.topics[k]).topic_id
                                        == s1.links[a].topic_id;
                                assert(store@.topics[w].topic_id == s1.links[a].topic_id);
                            }
                        }
                    }
                    ids.push(id);
                },
            }
            proof {
                assert(ids@.map_values(|x: i64| x as int) =~= ids@.drop_last().map_values(
                    |x: i64| x as int,
                ).push(ids@.last() as int));
            }
            i = i + 1;
        }
        proof {
            assert(names.take(topics.len() as int) =~= names);
        }
        Ok(ids)
    }

    /// Returns the id and name of every topic linked to the entry, in link
    /// order.
    pub fn get_related_to(store: &Store, entry_id: i64) -> (r: Vec<(i64, String)>)
        requires
            store.wf(),
        ensures
            r@.map_values(|p: (i64, String)| (p.0 as int, p.1@)) == spec_related_topics(
                store@,
                entry_id as int,
            ),
    {
        let mut r: Vec<(i64, String)> = Vec::new();
        let mut i: usize = 0;
        let ghost pred = |l: crate::store::LinkModel| l.entry_id == entry_id as int;
        proof {
            assert(store@.links.take(0) =~= Seq::<crate::store::LinkModel>::empty());
            assert(store@.links.take(0).filter(pred) =~= Seq::<crate::store::LinkModel>::empty())
                by {
                reveal(Seq::filter);
            }
        }
        while i < store.links.len()
            invariant
                store.wf(),
                i <= store@.links.len(),
                store@.links.len() == store.links@.len(),
                r@.map_values(|p: (i64, String)| (p.0 as int, p.1@)) == store@.links.take(
                    i as int,
                ).filter(pred).map_values(
                    |l: crate::store::LinkModel| (l.topic_id, store@.topic_name_of_id(l.topic_id)),
                ),
                pred == (|l: crate::store::LinkModel| l.entry_id == entry_id as int),
            decreases store@.links.len() - i,
        {
            let link = store.links[i];
            proof {
                assert(store@.links.take(i + 1).drop_last() =~= store@.links.take(i as int));
                assert(store@.links.take(i + 1).last() == store@.links[i as int]);
            }
            if link.entry_id == entry_id {
                proof {
                    assert(store@.links.contains(store@.links[i as int]));
                    assert(store@.has_topic_id(store@.links[i as int].topic_id));
                }
                let t = match store.find_topic_by_id(link.topic_id) {
                    Some(t) => t,
                    None => {
                        proof {
                            assert(false);
                        }
                        0
                    },
                };
                let name = store.topics[t].name.clone();
                proof {
                    let s = store@;
                    let lid = s.links[i as int].topic_id;
                    let w = s.topic_index_of_id(lid);
                    assert(0 <= w < s.topics.len() && s.topics[w].topic_id == lid);
                    assert(w == t as int) by {
                        if w != t as int {
                            if w < t as int {
                                assert(s.topics[w].topic_id != s.topics[t as int].topic_id);
                            } else {
                                assert(s.topics[t as int].topic_id != s.topics[w].topic_id);
                            }
                        }
                    }
                    assert(s.topic_name_of_id(lid) == name@);
                }
                r.push((link.topic_id, name));
            }
            proof {
                let f = |l: crate::store::LinkModel| (l.topic_id, store@.topic_name_of_id(
                    l.topic_id,
                ));
                let prev = store@.links.take(i as int).filter(pred);
                let cur = store@.links.take(i + 1).filter(pred);
                assert(store@.links.take(i as int).push(store@.links[i as int]) =~= store@.links.take(i + 1));
                store@.links.take(i as int).lemma_filter_push(store@.links[i as int], pred);
                if pred(store@.links[i as int]) {
                    assert(cur == prev.push(store@.links[i as int]));
                    assert(cur.map_values(f) =~= prev.map_values(f).push(f(store@.links[i as int])));
                    assert(r@.map_values(|p: (i64, String)| (p.0 as int, p.1@)) =~= r@.drop_last().map_values(|p: (i64, String)| (p.0 as int, p.1@)).push((r@.last().0 as int, r@.last().1@)));
                } else {
                    assert(cur == prev);
                }
            }
            i = i + 1;
        }
        proof {
            assert(store@.links.take(store@.links.len() as int) =~= store@.links);
        }
        r
    }

    /// Returns only the names of the topics linked to the entry, in link
    /// order.
    pub fn get_related_names(store: &Store, entry_id: i64) -> (r: Vec<String>)
        requires
            store.wf(),
        ensures
            r.deep_view() == store@.link_topic_names(entry_id as int),
    {
        let pairs = DBTopic::get_related_to(store, entry_id);
        let ghost pv = pairs@.map_values(|p: (i64, String)| (p.0 as int, p.1@));
        proof {
            assert(pv == spec_related_topics(store@, entry_id as int));
            assert(store@.link_topic_names(entry_id as int).len() == pv.len());
            assert(forall|j: int|
                0 <= j < pv.len() ==> #[trigger] store@.link_topic_names(entry_id as int)[j]
                    == pv[j].1);
        }
        let mut r: Vec<String> = Vec::new();
        let mut i: usize = 0;
        while i < pairs.len()
            invariant
                pv == pairs@.map_values(|p: (i64, String)| (p.0 as int, p.1@)),
                pv.len() == pairs@.len(),
                i <= pairs@.len(),
                r@.len() == i,
                forall|j: int| 0 <= j < i ==> (#[trigger] r@[j])@ == pv[j].1,
            decreases pairs@.len() - i,
        {
            r.push(pairs[i].1.clone());
            proof {
                assert(r@[i as int]@ == pairs@[i as int].1@);
                assert(pv[i as int].1 == pairs@[i as int].1@);
            }
            i = i + 1;
        }
        proof {
            assert forall|j: int| 0 <= j < r@.len() implies #[trigger] r.deep_view()[j] == pv[j].1
                by {
                assert(r.deep_view()[j] == r@[j].deep_view());
            }
            assert(r.deep_view() =~= store@.link_topic_names(entry_id as int));
        }
        r
    }

    /// Looks a topic name up; `NotFound` when no topic carries it.
    pub fn get_id_from_name(store: &Store, topic: &str) -> (r: Result<i64, RlistError>)
        ensures
            match r {
                Ok(id) => store@.has_topic_named(topic@) && exists|i: int|
                    0 <= i < store@.topics.len() && #[trigger] store@.topics[i] == (TopicRowModel {
                        topic_id: id as int,
                        name: topic@,
                    }),
                Err(e) => e == RlistError::NotFound && !store@.has_topic_named(topic@),
            },
    {
        match store.find_topic_by_name(topic) {
            Some(i) => {
                let id = store.topics[i].topic_id;
                proof {
                    assert(store@.topics[i as int] == (TopicRowModel {
                        topic_id: id as int,
                        name: topic@,
                    }));
                }
                Ok(id)
            },
            None => Err(RlistError::NotFound),
        }
    }
}

/// Creating topics only appends to the topic relation, leaves entries, links
/// and the entry id counter alone, and every returned id names a topic of the
/// resulting store.
pub proof fn lemma_create_topics_props(s: StoreModel, names: Seq<Seq<char>>)
    ensures
        ({
            let (s2, ids, ok) = spec_create_topics(s, names);
            &&& s2.entries == s.entries
            &&& s2.links == s.links
            &&& s2.next_entry_id == s.next_entry_id
            &&& s2.topics.len() >= s.topics.len()
            &&& forall|i: int| 0 <= i < s.topics.len() ==> s2.topics[i] == s.topics[i]
            &&& ok ==> ids.len() == names.len()
            &&& forall|i: int| 0 <= i < ids.len() ==> s2.has_topic_id(#[trigger] ids[i])
        }),
    decreases names.len(),
{
    if names.len() > 0 {
        lemma_create_topics_props(s, names.drop_last());
        let (s1, ids1, ok1) = spec_create_topics(s, names.drop_last());
        let (s2, ids, ok) = spec_create_topics(s, names);
        if ok1 {
            let name = names.last();
            if !s1.has_topic_named(name) && s1.next_topic_id == i64::MAX {
            } else {
                assert forall|i: int| 0 <= i < ids.len() implies s2.has_topic_id(
                    #[trigger] ids[i],
                ) by {
                    if i < ids1.len() {
                        assert(s1.has_topic_id(ids1[i]));
                        let w = choose|k: int|
                            0 <= k < s1.topics.len() && (#[trigger] s1.topics[k]).topic_id
                                == ids1[i];
                        assert(s2.topics[w].topic_id == ids[i]);
                    } else {
                        if s1.has_topic_named(name) {
                            let w = s1.topic_index_named(name);
                            assert(0 <= w < s1.topics.len() && s1.topics[w].name == name);
                            assert(s2.topics[w].topic_id == ids[i]);
                        } else {
                            assert(s2.topics[s2.topics.len() - 1].topic_id == ids[i]);
                        }
                    }
                }
            }
        }
    }
}

/// With enough id space for every name, bulk creation succeeds, and the id
/// counter grows by at most one per name.
pub proof fn lemma_create_topics_ok(s: StoreModel, names: Seq<Seq<char>>)
    requires
        s.next_topic_id + names.len() <= i64::MAX,
    ensures
        spec_create_topics(s, names).2,
        spec_create_topics(s, names).0.next_topic_id <= s.next_topic_id + names.len(),
    decreases names.len(),
{
    if names.len() > 0 {
        lemma_create_topics_ok(s, names.drop_last());
    }
}

/// Bulk creation starting from a well-formed store keeps it well-formed,
/// keeps every existing topic row in place, and, when it succeeds, maps the
/// returned ids to exactly the given names.
pub proof fn lemma_create_topics_wf(s: StoreModel, names: Seq<Seq<char>>)
    requires
        s.wf(),
    ensures
        ({
            let (s2, ids, ok) = spec_create_topics(s, names);
            &&& s2.wf()
            &&& forall|id: int|
                s.has_topic_id(id) ==> #[trigger] s2.has_topic_id(id) && s2.topic_name_of_id(id)
                    == s.topic_name_of_id(id)
            &&& ok ==> ids.len() == names.len()
            &&& ok ==> forall|i: int|
                0 <= i < names.len() ==> s2.has_topic_id(#[trigger] ids[i])
                    && s2.topic_name_of_id(ids[i]) == names[i]
        }),
    decreases names.len(),
{
    if names.len() > 0 {
        lemma_create_topics_wf(s, names.drop_last());
        lemma_create_topics_props(s, names.drop_last());
        let (s1, ids1, ok1) = spec_create_topics(s, names.drop_last());
        let (s2, ids, ok) = spec_create_topics(s, names);
        if ok1 {
            let name = names.last();
            if !s1.has_topic_named(name) && s1.next_topic_id == i64::MAX {
            } else {
                if s1.has_topic_named(name) {
                    let w = s1.topic_index_named(name);
                    assert(0 <= w < s1.topics.len() && s1.topics[w].name == name);
                    crate::store::lemma_topic_name_determined(s1, w);
                    assert(s2 == s1);
                    assert(s2.topic_name_of_id(ids.last()) == name);
                } else {
                    // a fresh row is appended; well-formedness carries over
                    assert(s2.topics =~= s1.topics.push(
                        TopicRowModel { topic_id: s1.next_topic_id, name },
                    ));
                    assert(s2.wf()) by {
                        assert(forall|j: int|
                            0 <= j < s1.topics.len() ==> (#[trigger] s2.topics[j])
                                == s1.topics[j]);
                        assert forall|a: int|
                            0 <= a < s2.links.len() implies s2.has_entry_id(
                            (#[trigger] s2.links[a]).entry_id,
                        ) && s2.has_topic_id(s2.links[a].topic_id) by {
                            assert(s1.links[a] == s2.links[a]);
                            assert(s1.has_entry_id(s1.links[a].entry_id));
                            let we = choose|k: int|
                                0 <= k < s1.entries.len() && (#[trigger] s1.entries[k]).entry_id
                                    == s1.links[a].entry_id;
                            assert(s2.entries[we].entry_id == s2.links[a].entry_id);
                            assert(s1.has_topic_id(s1.links[a].topic_id));
                            let wt = choose|k: int|
                                0 <= k < s1.topics.len() && (#[trigger] s1.topics[k]).topic_id
                                    == s1.links[a].topic_id;
                            assert(s2.topics[wt].topic_id == s2.links[a].topic_id);
                        }
                    }
                    crate::store::lemma_topic_name_determined(s2, s2.topics.len() - 1);
                    assert(s2.topic_name_of_id(ids.last()) == name);
                }
                // names already present keep their mapping
                assert forall|id: int| s1.has_topic_id(id) implies #[trigger] s2.has_topic_id(id)
                    && s2.topic_name_of_id(id) == s1.topic_name_of_id(id) by {
                    let w = choose|k: int|
                        0 <= k < s1.topics.len() && (#[trigger] s1.topics[k]).topic_id == id;
                    crate::store::lemma_topic_name_determined(s1, w);
                    crate::store::lemma_topic_name_determined(s2, w);
                }
                assert forall|id: int| s.has_topic_id(id) implies #[trigger] s2.has_topic_id(id)
                    && s2.topic_name_of_id(id) == s.topic_name_of_id(id) by {
                    let w = choose|k: int|
                        0 <= k < s.topics.len() && (#[trigger] s.topics[k]).topic_id == id;
                    crate::store::lemma_topic_name_determined(s, w);
                    assert(s1.topics[w] == s.topics[w]);
                    crate::store::lemma_topic_name_determined(s1, w);
                    assert(s2.topics[w] == s1.topics[w]);
                    crate::store::lemma_topic_name_determined(s2, w);
                }
                assert forall|i: int|
                    0 <= i < names.len() implies s2.has_topic_id(#[trigger] ids[i])
                        && s2.topic_name_of_id(ids[i]) == names[i] by {
                    if i < names.len() - 1 {
                        assert(ids1[i] == ids[i]);
                        assert(names.drop_last()[i] == names[i]);
                        assert(s1.has_topic_id(ids1[i]) && s1.topic_name_of_id(ids1[i])
                            == names[i]);
                        let w = choose|k: int|
                            0 <= k < s1.topics.len() && (#[trigger] s1.topics[k]).topic_id
                                == ids1[i];
                        crate::store::lemma_topic_name_determined(s1, w);
                        assert(s2.topics[w] == s1.topics[w]);
                        crate::store::lemma_topic_name_determined(s2, w);
                    } else {
                        assert(ids[i] == ids.last());
                        assert(names[i] == name);
                    }
                }
            }
        }
    }
}

/// Once the id space is exhausted at some prefix of the names, processing the
/// full sequence yields that same failed state.
proof fn lemma_create_topics_failure_sticks(s: StoreModel, names: Seq<Seq<char>>, k: int)
    requires
        0 <= k <= names.len(),
        !spec_create_topics(s, names.take(k)).2,
    ensures
        spec_create_topics(s, names) == spec_create_topics(s, names.take(k)),
    decreases names.len() - k,
{
    if k == names.len() {
        assert(names.take(k) =~= names);
    } else {
        assert(names.take(k + 1).drop_last() =~= names.take(k));
        assert(spec_create_topics(s, names.take(k + 1)) == spec_create_topics(s, names.take(k)));
        lemma_create_topics_failure_sticks(s, names, k + 1);
    }
}

} // verus!
