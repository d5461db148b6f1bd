use vstd::prelude::*;

use crate::entry::{Entry, EntryModel};
use crate::errors::RlistError;

verus! {

/// Copies an optional string.
pub fn clone_opt_string(a: &Option<String>) -> (r: Option<String>)
    ensures
        r.deep_view() == a.deep_view(),
{
    match a {
        Some(s) => Some(s.clone()),
        None => None,
    }
}

// The store models the three relations of the backing database: entries,
// topics, and the many-to-many links between them. Row identifiers are
// assigned from a per-relation counter, as the database assigns row ids.

/// One row of the entry relation.
#[derive(Debug)]
pub struct EntryRow {
    pub entry_id: i64,
    pub name: String,
    pub url: String,
    pub author: Option<String>,
    pub added: String,
}

pub ghost struct EntryRowModel {
    pub entry_id: int,
    pub name: Seq<char>,
    pub url: Seq<char>,
    pub author: Option<Seq<char>>,
    pub added: Seq<char>,
}

impl View for EntryRow {
    type V = EntryRowModel;

    open spec fn view(&self) -> EntryRowModel {
        EntryRowModel {
            entry_id: self.entry_id as int,
            name: self.name@,
            url: self.url@,
            author: self.author.deep_view(),
            added: self.added@,
        }
    }
}

impl EntryRow {
    /// A copy of this row.
    pub fn duplicate(&self) -> (r: EntryRow)
        ensures
            r@ == self@,
    {
        EntryRow {
            entry_id: self.entry_id,
            name: self.name.clone(),
            url: self.url.clone(),
            author: clone_opt_string(&self.author),
            added: self.added.clone(),
        }
    }

    /// A copy of this row's attributes, completed with the given topic list.
    pub fn to_entry(&self, topics: Vec<String>) -> (r: Entry)
        ensures
            r@ == (EntryModel {
                name: self@.name,
                url: self@.url,
                author: self@.author,
                added: self@.added,
                topics: topics.deep_view(),
            }),
    {
        Entry {
            name: self.name.clone(),
            url: self.url.clone(),
            author: clone_opt_string(&self.author),
            topics,
            added: self.added.clone(),
        }
    }
}

/// One row of the topic relation.
#[derive(Debug)]
pub struct TopicRow {
    pub topic_id: i64,
    pub name: String,
}

pub ghost struct TopicRowModel {
    pub topic_id: int,
    pub name: Seq<char>,
}

impl View for TopicRow {
    type V = TopicRowModel;

    open spec fn view(&self) -> TopicRowModel {
        TopicRowModel { topic_id: self.topic_id as int, name: self.name@ }
    }
}

/// One row of the link relation, associating one entry with one topic.
#[derive(Debug, Clone, Copy, PartialEq, Eq, Structural)]
pub struct LinkRow {
    pub entry_id: i64,
    pub topic_id: i64,
}

pub ghost struct LinkModel {
    pub entry_id: int,
    pub topic_id: int,
}

impl View for LinkRow {
    type V = LinkModel;

    open spec fn view(&self) -> LinkModel {
        LinkModel { entry_id: self.entry_id as int, topic_id: self.topic_id as int }
    }
}

/// The mathematical content of the whole store.
pub ghost struct StoreModel {
    pub entries: Seq<EntryRowModel>,
    pub topics: Seq<TopicRowModel>,
    pub links: Seq<LinkModel>,
    pub next_entry_id: int,
    pub next_topic_id: int,
}

impl StoreModel {
    pub open spec fn has_entry_named(self, name: Seq<char>) -> bool {
        exists|i: int| 0 <= i < self.entries.len() && (#[trigger] self.entries[i]).name == name
    }

    pub open spec fn has_entry_id(self, id: int) -> bool {
        exists|i: int| 0 <= i < self.entries.len() && (#[trigger] self.entries[i]).entry_id == id
    }

    pub open spec fn has_url(self, url: Seq<char>) -> bool {
        exists|i: int| 0 <= i < self.entries.len() && (#[trigger] self.entries[i]).url == url
    }

    /// The index of the entry with the given name; meaningful only when
    /// `has_entry_named` holds (under `wf` there is at most one).
    pub open spec fn entry_index_named(self, name: Seq<char>) -> int {
        choose|i: int| 0 <= i < self.entries.len() && (#[trigger] self.entries[i]).name == name
    }

    pub open spec fn entry_named(self, name: Seq<char>) -> EntryRowModel {
        self.entries[self.entry_index_named(name)]
    }

    pub open spec fn has_topic_named(self, name: Seq<char>) -> bool {
        exists|i: int| 0 <= i < self.topics.len() && (#[trigger] self.topics[i]).name == name
    }

    pub open spec fn has_topic_id(self, id: int) -> bool {
        exists|i: int| 0 <= i < self.topics.len() && (#[trigger] self.topics[i]).topic_id == id
    }

    /// The index of the topic with the given name; meaningful only when
    /// `has_topic_named` holds (under `wf` there is at most one).
    pub open spec fn topic_index_named(self, name: Seq<char>) -> int {
        choose|i: int| 0 <= i < self.topics.len() && (#[trigger] self.topics[i]).name == name
    }

    /// The id of the topic with the given name; meaningful only when
    /// `has_topic_named` holds.
    pub open spec fn topic_id_named(self, name: Seq<char>) -> int {
        self.topics[self.topic_index_named(name)].topic_id
    }

    /// The index of the topic with the given id; meaningful only when
    /// `has_topic_id` holds.
    pub open spec fn topic_index_of_id(self, id: int) -> int {
        choose|i: int| 0 <= i < self.topics.len() && (#[trigger] self.topics[i]).topic_id == id
    }

    /// The name of the topic with the given id; meaningful only when
    /// `has_topic_id` holds.
    pub open spec fn topic_name_of_id(self, id: int) -> Seq<char> {
        self.topics[self.topic_index_of_id(id)].name
    }

    pub open spec fn has_link(self, entry_id: int, topic_id: int) -> bool {
        self.links.contains(LinkModel { entry_id, topic_id })
    }

    /// The names of the topics linked to an entry, in link order.
    pub open spec fn link_topic_names(self, entry_id: int) -> Seq<Seq<char>> {
        self.links.filter(|l: LinkModel| l.entry_id == entry_id).map_values(
            |l: LinkModel| self.topic_name_of_id(l.topic_id),
        )
    }

    /// The ids of the topics linked to an entry, in link order.
    pub open spec fn topic_ids_of(self, entry_id: int) -> Seq<int> {
        self.links.filter(|l: LinkModel| l.entry_id == entry_id).map_values(
            |l: LinkModel| l.topic_id,
        )
    }

    /// An entry row completed with the names of its topics.
    pub open spec fn entry_aggregate(self, r: EntryRowModel) -> EntryModel {
        EntryModel {
            name: r.name,
            url: r.url,
            author: r.author,
            added: r.added,
            topics: self.link_topic_names(r.entry_id),
        }
    }

    /// Every entry, in row order, completed with its topics.
    pub open spec fn aggregate(self) -> Seq<EntryModel> {
        self.entries.map_values(|r: EntryRowModel| self.entry_aggregate(r))
    }

    pub open spec fn entries_ok(self) -> bool {
        &&& forall|i: int, j: int|
            0 <= i < j < self.entries.len() ==> (#[trigger] self.entries[i]).entry_id != (
            #[trigger] self.entries[j]).entry_id && self.entries[i].name != self.entries[j].name
                && self.entries[i].url != self.entries[j].url
        &&& forall|i: int|
            0 <= i < self.entries.len() ==> 0 < (#[trigger] self.entries[i]).entry_id
                < self.next_entry_id
        &&& 0 < self.next_entry_id <= i64::MAX
    }

    pub open spec fn topics_ok(self) -> bool {
        &&& forall|i: int, j: int|
            0 <= i < j < self.topics.len() ==> (#[trigger] self.topics[i]).topic_id != (
            #[trigger] self.topics[j]).topic_id && self.topics[i].name != self.topics[j].name
        &&& forall|i: int|
            0 <= i < self.topics.len() ==> 0 < (#[trigger] self.topics[i]).topic_id
                < self.next_topic_id
        &&& 0 < self.next_topic_id <= i64::MAX
    }

    pub open spec fn links_ok(self) -> bool {
        &&& forall|i: int, j: int|
            0 <= i < j < self.links.len() ==> #[trigger] self.links[i] != #[trigger] self.links[j]
        &&& forall|i: int|
            0 <= i < self.links.len() ==> self.has_entry_id((#[trigger] self.links[i]).entry_id)
                && self.has_topic_id(self.links[i].topic_id)
    }

    /// Well-formedness: the uniqueness and referential-integrity constraints
    /// the backing schema enforces.
    pub open spec fn wf(self) -> bool {
        self.entries_ok() && self.topics_ok() && self.links_ok()
    }

    /// The same store with the entry relation (and its id counter) replaced.
    pub open spec fn with_entries(self, entries: Seq<EntryRowModel>, next_entry_id: int) -> StoreModel {
        StoreModel {
            entries,
            topics: self.topics,
            links: self.links,
            next_entry_id,
            next_topic_id: self.next_topic_id,
        }
    }

    /// The same store with the topic relation (and its id counter) replaced.
    pub open spec fn with_topics(self, topics: Seq<TopicRowModel>, next_topic_id: int) -> StoreModel {
        StoreModel {
            entries: self.entries,
            topics,
            links: self.links,
            next_entry_id: self.next_entry_id,
            next_topic_id,
        }
    }

    /// The same store with the link relation replaced.
    pub open spec fn with_links(self, links: Seq<LinkModel>) -> StoreModel {
        StoreModel {
            entries: self.entries,
            topics: self.topics,
            links,
            next_entry_id: self.next_entry_id,
            next_topic_id: self.next_topic_id,
        }
    }
}

/// The topic names of an entry are its topic ids, each mapped to its name.
pub proof fn lemma_link_topic_names_via_ids(s: StoreModel, entry_id: int)
    ensures
        s.link_topic_names(entry_id) == s.topic_ids_of(entry_id).map_values(
            |id: int| s.topic_name_of_id(id),
        ),
{
    assert(s.link_topic_names(entry_id) =~= s.topic_ids_of(entry_id).map_values(
        |id: int| s.topic_name_of_id(id),
    ));
}

/// In a well-formed store a topic id determines its name.
pub proof fn lemma_topic_name_determined(s: StoreModel, i: int)
    requires
        s.wf(),
        0 <= i < s.topics.len(),
    ensures
        s.has_topic_id(s.topics[i].topic_id),
        s.topic_name_of_id(s.topics[i].topic_id) == s.topics[i].name,
{
    let id = s.topics[i].topic_id;
    assert(s.has_topic_id(id));
    let w = s.topic_index_of_id(id);
    assert(0 <= w < s.topics.len() && s.topics[w].topic_id == id);
    assert(w == i) by {
        if w != i {
            if w < i {
                assert(s.topics[w].topic_id != s.topics[i].topic_id);
            } else {
                assert(s.topics[i].topic_id != s.topics[w].topic_id);
            }
        }
    }
}

/// In a well-formed store a topic name determines its id.
pub proof fn lemma_topic_id_determined(s: StoreModel, i: int)
    requires
        s.wf(),
        0 <= i < s.topics.len(),
    ensures
        s.has_topic_named(s.topics[i].name),
        s.topic_id_named(s.topics[i].name) == s.topics[i].topic_id,
{
    let name = s.topics[i].name;
    assert(s.has_topic_named(name));
    let w = s.topic_index_named(name);
    assert(0 <= w < s.topics.len() && s.topics[w].name == name);
    assert(w == i) by {
        if w != i {
            if w < i {
                assert(s.topics[w].name != s.topics[i].name);
            } else {
                assert(s.topics[i].name != s.topics[w].name);
            }
        }
    }
}

/// Two well-formed stores with the same topic relation name their topics
/// alike.
pub proof fn lemma_topic_name_preserved(sa: StoreModel, sb: StoreModel, id: int)
    requires
        sa.wf(),
        sb.wf(),
        sa.topics == sb.topics,
        sa.has_topic_id(id),
    ensures
        sb.has_topic_id(id),
        sb.topic_name_of_id(id) == sa.topic_name_of_id(id),
{
    let w = choose|k: int| 0 <= k < sa.topics.len() && (#[trigger] sa.topics[k]).topic_id == id;
    lemma_topic_name_determined(sa, w);
    assert(sb.topics[w] == sa.topics[w]);
    lemma_topic_name_determined(sb, w);
}

/// Each linked topic id of an entry names an existing topic, and the
/// entry's topic names are those ids' names, position by position.
pub proof fn lemma_entry_topic_member(s: StoreModel, entry_id: int, k: int)
    requires
        s.wf(),
        0 <= k < s.topic_ids_of(entry_id).len(),
    ensures
        s.link_topic_names(entry_id).len() == s.topic_ids_of(entry_id).len(),
        s.has_topic_id(s.topic_ids_of(entry_id)[k]),
        s.link_topic_names(entry_id)[k] == s.topic_name_of_id(s.topic_ids_of(entry_id)[k]),
{
    let pred = |l: LinkModel| l.entry_id == entry_id;
    let f = s.links.filter(pred);
    lemma_filter_distinct(s.links, pred);
    assert(s.links.contains(f[k]));
    let w = choose|i: int| 0 <= i < s.links.len() && s.links[i] == f[k];
    assert(s.has_topic_id(s.links[w].topic_id));
    assert(s.topic_ids_of(entry_id)[k] == f[k].topic_id);
    assert(s.link_topic_names(entry_id)[k] == s.topic_name_of_id(f[k].topic_id));
}

/// Replacing the link relation with a pairwise-distinct selection of links
/// taken from the old relation preserves well-formedness.
pub proof fn lemma_wf_with_links(s: StoreModel, links: Seq<LinkModel>)
    requires
        s.wf(),
        forall|i: int, j: int| 0 <= i < j < links.len() ==> links[i] != links[j],
        forall|i: int| 0 <= i < links.len() ==> s.links.contains(#[trigger] links[i]),
    ensures
        s.with_links(links).wf(),
{
    let s2 = s.with_links(links);
    assert forall|i: int|
        0 <= i < s2.links.len() implies s2.has_entry_id((#[trigger] s2.links[i]).entry_id)
        && s2.has_topic_id(s2.links[i].topic_id) by {
        assert(s.links.contains(links[i]));
        let w = choose|k: int| 0 <= k < s.links.len() && s.links[k] == links[i];
        assert(s.has_entry_id((s.links[w]).entry_id));
        assert(s.has_topic_id((s.links[w]).topic_id));
        let we = choose|k: int|
            0 <= k < s.entries.len() && (#[trigger] s.entries[k]).entry_id == s.links[w].entry_id;
        assert(s2.entries[we].entry_id == s2.links[i].entry_id);
        let wt = choose|k: int|
            0 <= k < s.topics.len() && (#[trigger] s.topics[k]).topic_id == s.links[w].topic_id;
        assert(s2.topics[wt].topic_id == s2.links[i].topic_id);
    }
}

/// Appending one fresh link whose two ends exist preserves well-formedness.
pub proof fn lemma_wf_push_link(s: StoreModel, l: LinkModel)
    requires
        s.wf(),
        !s.links.contains(l),
        s.has_entry_id(l.entry_id),
        s.has_topic_id(l.topic_id),
    ensures
        s.with_links(s.links.push(l)).wf(),
{
    let s2 = s.with_links(s.links.push(l));
    assert forall|i: int, j: int|
        0 <= i < j < s2.links.len() implies s2.links[i] != s2.links[j] by {
        if j == s2.links.len() - 1 {
            assert(s.links.contains(s.links[i]));
        }
    }
    assert forall|i: int|
        0 <= i < s2.links.len() implies s2.has_entry_id((#[trigger] s2.links[i]).entry_id)
        && s2.has_topic_id(s2.links[i].topic_id) by {
        let cur = s2.links[i];
        if i < s.links.len() {
            assert(cur == s.links[i]);
            assert(s.has_entry_id(cur.entry_id));
            assert(s.has_topic_id(cur.topic_id));
        } else {
            assert(cur == l);
        }
        let we = choose|k: int|
            0 <= k < s.entries.len() && (#[trigger] s.entries[k]).entry_id == cur.entry_id;
        assert(s2.entries[we].entry_id == cur.entry_id);
        let wt = choose|k: int|
            0 <= k < s.topics.len() && (#[trigger] s.topics[k]).topic_id == cur.topic_id;
        assert(s2.topics[wt].topic_id == cur.topic_id);
    }
}

/// A filtered selection of a pairwise-distinct sequence is pairwise distinct
/// and keeps only members of the original.
pub proof fn lemma_filter_distinct<A>(s: Seq<A>, pred: spec_fn(A) -> bool)
    requires
        forall|i: int, j: int| 0 <= i < j < s.len() ==> s[i] != s[j],
    ensures
        forall|i: int, j: int|
            0 <= i < j < s.filter(pred).len() ==> s.filter(pred)[i] != s.filter(pred)[j],
        forall|i: int| 0 <= i < s.filter(pred).len() ==> s.contains(#[trigger] s.filter(pred)[i]),
    decreases s.len(),
{
    reveal(Seq::filter);
    if s.len() > 0 {
        let prefix = s.drop_last();
        assert(forall|i: int, j: int| 0 <= i < j < prefix.len() ==> prefix[i] != prefix[j]);
        lemma_filter_distinct(prefix, pred);
        let f = s.filter(pred);
        let fp = prefix.filter(pred);
        assert forall|i: int| 0 <= i < f.len() implies s.contains(#[trigger] f[i]) by {
            if pred(s.last()) && i == f.len() - 1 {
                assert(f[i] == s.last());
                assert(s[s.len() - 1] == s.last());
            } else {
                assert(f[i] == fp[i]);
                assert(prefix.contains(fp[i]));
                let w = choose|k: int| 0 <= k < prefix.len() && prefix[k] == fp[i];
                assert(s[w] == fp[i]);
            }
        }
        assert forall|i: int, j: int| 0 <= i < j < f.len() implies f[i] != f[j] by {
            if pred(s.last()) && j == f.len() - 1 {
                assert(f[i] == fp[i]);
                assert(prefix.contains(fp[i]));
                let w = choose|k: int| 0 <= k < prefix.len() && prefix[k] == fp[i];
                assert(s[w] != s.last());
            } else {
                assert(f[i] == fp[i] && f[j] == fp[j]);
            }
        }
    }
}

/// The constraints loaded rows must satisfy to form a store: the schema's
/// uniqueness and referential-integrity rules, with every id in range.
pub open spec fn rows_consistent(
    es: Seq<EntryRowModel>,
    ts: Seq<TopicRowModel>,
    ls: Seq<LinkModel>,
) -> bool {
    &&& forall|i: int, j: int|
        0 <= i < j < es.len() ==> (#[trigger] es[i]).entry_id != (#[trigger] es[j]).entry_id
            && es[i].name != es[j].name && es[i].url != es[j].url
    &&& forall|i: int| 0 <= i < es.len() ==> 0 < (#[trigger] es[i]).entry_id < i64::MAX
    &&& forall|i: int, j: int|
        0 <= i < j < ts.len() ==> (#[trigger] ts[i]).topic_id != (#[trigger] ts[j]).topic_id
            && ts[i].name != ts[j].name
    &&& forall|i: int| 0 <= i < ts.len() ==> 0 < (#[trigger] ts[i]).topic_id < i64::MAX
    &&& forall|i: int, j: int| 0 <= i < j < ls.len() ==> #[trigger] ls[i] != #[trigger] ls[j]
    &&& forall|i: int|
        0 <= i < ls.len() ==> (exists|k: int|
            0 <= k < es.len() && (#[trigger] es[k]).entry_id == (#[trigger] ls[i]).entry_id)
            && (exists|k: int|
            0 <= k < ts.len() && (#[trigger] ts[k]).topic_id == ls[i].topic_id)
}

/// The store of a freshly created reading list: all three relations empty.
pub open spec fn empty_store() -> StoreModel {
    StoreModel {
        entries: Seq::empty(),
        topics: Seq::empty(),
        links: Seq::empty(),
        next_entry_id: 1,
        next_topic_id: 1,
    }
}

/// The in-memory image of the three relations, operated on by the
/// repositories and persisted by the caller.
#[derive(Debug)]
pub struct Store {
    pub entries: Vec<EntryRow>,
    pub topics: Vec<TopicRow>,
    pub links: Vec<LinkRow>,
    pub next_entry_id: i64,
    pub next_topic_id: i64,
}

impl View for Store {
    type V = StoreModel;

    open spec fn view(&self) -> StoreModel {
        StoreModel {
            entries: self.entries@.map_values(|r: EntryRow| r@),
            topics: self.topics@.map_values(|r: TopicRow| r@),
            links: self.links@.map_values(|r: LinkRow| r@),
            next_entry_id: self.next_entry_id as int,
            next_topic_id: self.next_topic_id as int,
        }
    }
}

impl Store {
    pub open spec fn wf(self) -> bool {
        self@.wf()
    }

    /// An empty store, as the bootstrap creates when no database existed.
    pub fn new() -> (r: Store)
        ensures
            r@ == empty_store(),
            r.wf(),
    {
        let r = Store {
            entries: Vec::new(),
            topics: Vec::new(),
            links: Vec::new(),
            next_entry_id: 1,
            next_topic_id: 1,
        };
        proof {
            assert(r@.entries =~= Seq::<EntryRowModel>::empty());
            assert(r@.topics =~= Seq::<TopicRowModel>::empty());
            assert(r@.links =~= Seq::<LinkModel>::empty());
            assert(r@ =~= empty_store());
        }
        r
    }

    /// Builds a store from loaded rows: checks the uniqueness and
    /// referential-integrity constraints of the schema and computes the next
    /// fresh ids; rows that violate a constraint are refused.
    pub fn from_rows(entries: Vec<EntryRow>, topics: Vec<TopicRow>, links: Vec<LinkRow>) -> (r:
        Result<Store, RlistError>)
        ensures
            match r {
                Ok(s) => {
                    &&& s.wf()
                    &&& s@.entries == entries@.map_values(|x: EntryRow| x@)
                    &&& s@.topics == topics@.map_values(|x: TopicRow| x@)
                    &&& s@.links == links@.map_values(|x: LinkRow| x@)
                },
                Err(e) => {
                    &&& e == RlistError::Infrastructure
                    &&& !rows_consistent(
                        entries@.map_values(|x: EntryRow| x@),
                        topics@.map_values(|x: TopicRow| x@),
                        links@.map_values(|x: LinkRow| x@),
                    )
                },
            },
    {
        let ghost es = entries@.map_values(|x: EntryRow| x@);
        let ghost ts = topics@.map_values(|x: TopicRow| x@);
        let ghost ls = links@.map_values(|x: LinkRow| x@);
        let mut next_entry_id: i64 = 1;
        let mut i: usize = 0;
        while i < entries.len()
            invariant
                es == entries@.map_values(|x: EntryRow| x@),
                i <= es.len(),
                es.len() == entries@.len(),
                1 <= next_entry_id <= i64::MAX,
                forall|a: int| 0 <= a < i ==> 0 < (#[trigger] es[a]).entry_id < next_entry_id,
                forall|a: int, b: int|
                    0 <= a < i && a < b < es.len() ==> (#[trigger] es[a]).entry_id != (
                    #[trigger] es[b]).entry_id && es[a].name != es[b].name && es[a].url
                        != es[b].url,
            decreases es.len() - i,
        {
            let row = &entries[i];
            if row.entry_id <= 0 || row.entry_id == i64::MAX {
                proof {
                    assert(!(0 < es[i as int].entry_id < i64::MAX));
                    assert(!rows_consistent(es, ts, ls));
                }
                return Err(RlistError::Infrastructure);
            }
            let mut j: usize = i + 1;
            while j < entries.len()
                invariant
                    es == entries@.map_values(|x: EntryRow| x@),
                    i < j <= es.len(),
                    es.len() == entries@.len(),
                    forall|b: int|
                        i < b < j ==> (#[trigger] es[b]).entry_id != es[i as int].entry_id && es[
                            b
                        ].name != es[i as int].name && es[b].url != es[i as int].url,
                decreases es.len() - j,
            {
                if entries[j].entry_id == entries[i].entry_id || crate::strutil::str_eq(
                    entries[j].name.as_str(),
                    entries[i].name.as_str(),
                ) || crate::strutil::str_eq(entries[j].url.as_str(), entries[i].url.as_str()) {
                    proof {
                        assert(es[i as int].entry_id == es[j as int].entry_id || es[i as int].name
                            == es[j as int].name || es[i as int].url == es[j as int].url);
                        assert(!rows_consistent(es, ts, ls));
                    }
                    return Err(RlistError::Infrastructure);
                }
                j = j + 1;
            }
            if row.entry_id >= next_entry_id {
                next_entry_id = row.entry_id + 1;
            }
            i = i + 1;
        }
        let mut next_topic_id: i64 = 1;
        let mut i: usize = 0;
        while i < topics.len()
            invariant
                ts == topics@.map_values(|x: TopicRow| x@),
                i <= ts.len(),
                ts.len() == topics@.len(),
                1 <= next_topic_id <= i64::MAX,
                forall|a: int| 0 <= a < i ==> 0 < (#[trigger] ts[a]).topic_id < next_topic_id,
                forall|a: int, b: int|
                    0 <= a < i && a < b < ts.len() ==> (#[trigger] ts[a]).topic_id != (
                    #[trigger] ts[b]).topic_id && ts[a].name != ts[b].name,
            decreases ts.len() - i,
        {
            let row = &topics[i];
            if row.topic_id <= 0 || row.topic_id == i64::MAX {
                proof {
                    assert(!(0 < ts[i as int].topic_id < i64::MAX));
                    assert(!rows_consistent(es, ts, ls));
                }
                return Err(RlistError::Infrastructure);
            }
            let mut j: usize = i + 1;
            while j < topics.len()
                invariant
                    ts == topics@.map_values(|x: TopicRow| x@),
                    i < j <= ts.len(),
                    ts.len() == topics@.len(),
                    forall|b: int|
                        i < b < j ==> (#[trigger] ts[b]).topic_id != ts[i as int].topic_id && ts[
                            b
                        ].name != ts[i as int].name,
                decreases ts.len() - j,
            {
                if topics[j].topic_id == topics[i].topic_id || crate::strutil::str_eq(
                    topics[j].name.as_str(),
                    topics[i].name.as_str(),
                ) {
                    proof {
                        assert(ts[i as int].topic_id == ts[j as int].topic_id || ts[i as int].name
                            == ts[j as int].name);
                        assert(!rows_consistent(es, ts, ls));
                    }
                    return Err(RlistError::Infrastructure);
                }
                j = j + 1;
            }
            if row.topic_id >= next_topic_id {
                next_topic_id = row.topic_id + 1;
            }
            i = i + 1;
        }
        let mut i: usize = 0;
        while i < links.len()
            invariant
                es == entries@.map_values(|x: EntryRow| x@),
                ts == topics@.map_values(|x: TopicRow| x@),
                ls == links@.map_values(|x: LinkRow| x@),
                i <= ls.len(),
                ls.len() == links@.len(),
                es.len() == entries@.len(),
                ts.len() == topics@.len(),
                forall|a: int, b: int|
                    0 <= a < i && a < b < ls.len() ==> #[trigger] ls[a] != #[trigger] ls[b],
                forall|a: int|
                    0 <= a < i ==> (exists|k: int|
                        0 <= k < es.len() && (#[trigger] es[k]).entry_id == (
                        #[trigger] ls[a]).entry_id) && (exists|k: int|
                        0 <= k < ts.len() && (#[trigger] ts[k]).topic_id == ls[a].topic_id),
            decreases ls.len() - i,
        {
            let link = links[i];
            let mut j: usize = i + 1;
            while j < links.len()
                invariant
                    ls == links@.map_values(|x: LinkRow| x@),
                    i < j <= ls.len(),
                    ls.len() == links@.len(),
                    link == links@[i as int],
                    i < ls.len(),
                    forall|b: int| i < b < j ==> #[trigger] ls[b] != ls[i as int],
                decreases ls.len() - j,
            {
                if links[j].entry_id == link.entry_id && links[j].topic_id == link.topic_id {
                    proof {
                        assert(ls[j as int] == ls[i as int]);
                        assert(!rows_consistent(es, ts, ls));
                    }
                    return Err(RlistError::Infrastructure);
                }
                proof {
                    assert(ls[j as int] != ls[i as int]);
                }
                j = j + 1;
            }
            let mut found_entry = false;
            let mut k: usize = 0;
            while k < entries.len()
                invariant
                    es == entries@.map_values(|x: EntryRow| x@),
                    k <= es.len(),
                    es.len() == entries@.len(),
                    i < ls.len(),
                    link == links@[i as int],
                    ls == links@.map_values(|x: LinkRow| x@),
                    !found_entry ==> forall|a: int|
                        0 <= a < k ==> (#[trigger] es[a]).entry_id != ls[i as int].entry_id,
                    found_entry ==> exists|a: int|
                        0 <= a < es.len() && (#[trigger] es[a]).entry_id == ls[i as int].entry_id,
                decreases es.len() - k,
            {
                if entries[k].entry_id == link.entry_id {
                    found_entry = true;
                    proof {
                        assert(es[k as int].entry_id == ls[i as int].entry_id);
                    }
                }
                k = k + 1;
            }
            if !found_entry {
                proof {
                    assert(!rows_consistent(es, ts, ls)) by {
                        if rows_consistent(es, ts, ls) {
                            let k0 = choose|k0: int|
                                0 <= k0 < es.len() && (#[trigger] es[k0]).entry_id == ls[
                                    i as int
                                ].entry_id;
                            assert(es[k0].entry_id != ls[i as int].entry_id);
                        }
                    }
                }
                return Err(RlistError::Infrastructure);
            }
            let mut found_topic = false;
            let mut k: usize = 0;
            while k < topics.len()
                invariant
                    ts == topics@.map_values(|x: TopicRow| x@),
                    k <= ts.len(),
                    ts.len() == topics@.len(),
                    i < ls.len(),
                    link == links@[i as int],
                    ls == links@.map_values(|x: LinkRow| x@),
                    !found_topic ==> forall|a: int|
                        0 <= a < k ==> (#[trigger] ts[a]).topic_id != ls[i as int].topic_id,
                    found_topic ==> exists|a: int|
                        0 <= a < ts.len() && (#[trigger] ts[a]).topic_id == ls[i as int].topic_id,
                decreases ts.len() - k,
            {
                if topics[k].topic_id == link.topic_id {
                    found_topic = true;
                    proof {
                        assert(ts[k as int].topic_id == ls[i as int].topic_id);
                    }
                }
                k = k + 1;
            }
            if !found_topic {
                proof {
                    assert(!rows_consistent(es, ts, ls)) by {
                        if rows_consistent(es, ts, ls) {
                            let k0 = choose|k0: int|
                                0 <= k0 < ts.len() && (#[trigger] ts[k0]).topic_id == ls[
                                    i as int
                                ].topic_id;
                            assert(ts[k0].topic_id != ls[i as int].topic_id);
                        }
                    }
                }
                return Err(RlistError::Infrastructure);
            }
            i = i + 1;
        }
        let s = Store { entries, topics, links, next_entry_id, next_topic_id };
        proof {
            assert(s@.entries == es);
            assert(s@.topics == ts);
            assert(s@.links == ls);
            assert forall|a: int|
                0 <= a < s@.links.len() implies s@.has_entry_id(
                (#[trigger] s@.links[a]).entry_id,
            ) && s@.has_topic_id(s@.links[a].topic_id) by {
                let we = choose|k: int|
                    0 <= k < es.len() && (#[trigger] es[k]).entry_id == ls[a].entry_id;
                assert(s@.entries[we].entry_id == s@.links[a].entry_id);
                let wt = choose|k: int|
                    0 <= k < ts.len() && (#[trigger] ts[k]).topic_id == ls[a].topic_id;
                assert(s@.topics[wt].topic_id == s@.links[a].topic_id);
            }
        }
        Ok(s)
    }

    /// Finds the index of the entry row carrying the given name.
    pub fn find_entry_by_name(&self, name: &str) -> (r: Option<usize>)
        ensures
            match r {
                Some(i) => i < self@.entries.len() && self@.entries[i as int].name == name@,
                None => !self@.has_entry_named(name@),
            },
    {
        let mut i: usize = 0;
        while i < self.entries.len()
            invariant
                i <= self@.entries.len(),
                self@.entries.len() == self.entries@.len(),
                forall|j: int| 0 <= j < i ==> (#[trigger] self@.entries[j]).name != name@,
            decreases self@.entries.len() - i,
        {
            if crate::strutil::str_eq(self.entries[i].name.as_str(), name) {
                return Some(i);
            }
            i = i + 1;
        }
        None
    }

    /// Finds the index of the entry row carrying the given url.
    pub fn find_entry_by_url(&self, url: &str) -> (r: Option<usize>)
        ensures
            match r {
                Some(i) => i < self@.entries.len() && self@.entries[i as int].url == url@,
                None => !self@.has_url(url@),
            },
    {
        let mut i: usize = 0;
        while i < self.entries.len()
            invariant
                i <= self@.entries.len(),
                self@.entries.len() == self.entries@.len(),
                forall|j: int| 0 <= j < i ==> (#[trigger] self@.entries[j]).url != url@,
            decreases self@.entries.len() - i,
        {
            if crate::strutil::str_eq(self.entries[i].url.as_str(), url) {
                return Some(i);
            }
            i = i + 1;
        }
        None
    }

    /// Finds the index of the topic row carrying the given name.
    pub fn find_topic_by_name(&self, name: &str) -> (r: Option<usize>)
        ensures
            match r {
                Some(i) => i < self@.topics.len() && self@.topics[i as int].name == name@,
                None => !self@.has_topic_named(name@),
            },
    {
        let mut i: usize = 0;
        while i < self.topics.len()
            invariant
                i <= self@.topics.len(),
                self@.topics.len() == self.topics@.len(),
                forall|j: int| 0 <= j < i ==> (#[trigger] self@.topics[j]).name != name@,
            decreases self@.topics.len() - i,
        {
            if crate::strutil::str_eq(self.topics[i].name.as_str(), name) {
                return Some(i);
            }
            i = i + 1;
        }
        None
    }

    /// Finds the index of the topic row carrying the given id.
    pub fn find_topic_by_id(&self, id: i64) -> (r: Option<usize>)
        ensures
            match r {
                Some(i) => i < self@.topics.len() && self@.topics[i as int].topic_id == id as int,
                None => !self@.has_topic_id(id as int),
            },
    {
        let mut i: usize = 0;
        while i < self.topics.len()
            invariant
                i <= self@.topics.len(),
                self@.topics.len() == self.topics@.len(),
                forall|j: int| 0 <= j < i ==> (#[trigger] self@.topics[j]).topic_id != id as int,
            decreases self@.topics.len() - i,
        {
            if self.topics[i].topic_id == id {
                return Some(i);
            }
            i = i + 1;
        }
        None
    }

    /// Finds the index of the entry row carrying the given id.
    pub fn find_entry_by_id(&self, id: i64) -> (r: Option<usize>)
        ensures
            match r {
                Some(i) => i < self@.entries.len() && self@.entries[i as int].entry_id == id as int,
                None => !self@.has_entry_id(id as int),
            },
    {
        let mut i: usize = 0;
        while i < self.entries.len()
            invariant
                i <= self@.entries.len(),
                self@.entries.len() == self.entries@.len(),
                forall|j: int| 0 <= j < i ==> (#[trigger] self@.entries[j]).entry_id != id as int,
            decreases self@.entries.len() - i,
        {
            if self.entries[i].entry_id == id {
                return Some(i);
            }
            i = i + 1;
        }
        None
    }

    /// Reports whether the link relation holds the given pair.
    pub fn has_link_row(&self, entry_id: i64, topic_id: i64) -> (r: bool)
        ensures
            r == self@.has_link(entry_id as int, topic_id as int),
    {
        let mut i: usize = 0;
        while i < self.links.len()
            invariant
                i <= self@.links.len(),
                self@.links.len() == self.links@.len(),
                forall|j: int|
                    0 <= j < i ==> #[trigger] self@.links[j] != (LinkModel {
                        entry_id: entry_id as int,
                        topic_id: topic_id as int,
                    }),
            decreases self@.links.len() - i,
        {
            if self.links[i].entry_id == entry_id && self.links[i].topic_id == topic_id {
                proof {
                    assert(self@.links[i as int] == (LinkModel {
                        entry_id: entry_id as int,
                        topic_id: topic_id as int,
                    }));
                }
                return true;
            }
            i = i + 1;
        }
        proof {
            assert forall|j: int| 0 <= j < self@.links.len() implies #[trigger] self@.links[j] != (
            LinkModel { entry_id: entry_id as int, topic_id: topic_id as int }) by {}
        }
        false
    }
}

} // verus!
