use vstd::prelude::*;

verus! {

/// The mathematical content of a reading-list item: its attributes together
/// with the names of the topics it carries.
pub ghost struct EntryModel {
    pub name: Seq<char>,
    pub url: Seq<char>,
    pub author: Option<Seq<char>>,
    pub topics: Seq<Seq<char>>,
    pub added: Seq<char>,
}

/// A reading-list item as handed to and returned from the list operations.
#[derive(Debug)]
pub struct Entry {
    pub name: String,
    pub url: String,
    pub author: Option<String>,
    pub topics: Vec<String>,
    pub added: String,
}

impl View for Entry {
    type V = EntryModel;

    open spec fn view(&self) -> EntryModel {
        EntryModel {
            name: self.name@,
            url: self.url@,
            author: self.author.deep_view(),
            topics: self.topics.deep_view(),
            added: self.added@,
        }
    }
}

impl Entry {
    /// Builds an entry from its parts; a missing creation time becomes the
    /// empty string.
    pub fn new(
        name: String,
        url: String,
        author: Option<String>,
        topics: Vec<String>,
        added: Option<String>,
    ) -> (r: Entry)
        ensures
            r@.name == name@,
            r@.url == url@,
            r@.author == author.deep_view(),
            r@.topics == topics.deep_view(),
            r@.added == match added {
                Some(a) => a@,
                None => Seq::<char>::empty(),
            },
    {
        let added_value = match added {
            Some(a) => a,
            None => String::new(),
        };
        Entry { name, url, author, topics, added: added_value }
    }
}

} // verus!
