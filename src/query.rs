//! The parsed statements and the table that holds them.
use vstd::prelude::*;
use vstd::string::StringExecFns;

verus! {

/// Mathematical form of a parsed statement: its text and its tags, in the
/// order in which they were given.
pub struct QueryModel {
    pub text: Seq<char>,
    pub tags: Seq<(Seq<char>, Seq<char>)>,
}

/// A statement with no text and no tags.
pub open spec fn empty_query() -> QueryModel {
    QueryModel { text: seq![], tags: seq![] }
}

/// Whether some pair of `s` has key `k`.
pub open spec fn has_key<V>(s: Seq<(Seq<char>, V)>, k: Seq<char>) -> bool {
    exists|i: int| 0 <= i < s.len() && #[trigger] s[i].0 == k
}

/// No two pairs of `s` share a key.
pub open spec fn keys_unique<V>(s: Seq<(Seq<char>, V)>) -> bool {
    forall|i: int, j: int| 0 <= i < j < s.len() ==> #[trigger] s[i].0 != #[trigger] s[j].0
}

/// One parsed statement: its assembled text and its `key: value` tags.
#[derive(Debug, Clone)]
pub struct Query {
    pub query: String,
    pub tags: Vec<(String, String)>,
}

pub open spec fn pair_view(p: (String, String)) -> (Seq<char>, Seq<char>) {
    (p.0@, p.1@)
}

impl View for Query {
    type V = QueryModel;

    open spec fn view(&self) -> QueryModel {
        QueryModel { text: self.query@, tags: self.tags@.map_values(|p: (String, String)| pair_view(p)) }
    }
}

impl Query {
    /// A statement with no text and no tags.
    pub fn new() -> (r: Query)
        ensures
            r@ == empty_query(),
    {
        let r = Query { query: String::new(), tags: Vec::new() };
        assert(r@.tags =~= seq![]);
        r
    }

    /// The value of tag `key`, if the statement has it.
    pub fn tag(&self, key: &str) -> (r: Option<&String>)
        ensures
            r is None <==> !has_key(self@.tags, key@),
            r matches Some(v) ==> exists|i: int|
                0 <= i < self@.tags.len() && self@.tags[i].0 == key@ && v@ == self@.tags[i].1,
    {
        let k = String::from_str(key);
        let mut i: usize = 0;
        while i < self.tags.len()
            invariant
                i <= self.tags.len(),
                forall|j: int| 0 <= j < i ==> self@.tags[j].0 != key@,
                k@ == key@,
            decreases self.tags.len() - i,
        {
            assert(self@.tags[i as int] == pair_view(self.tags@[i as int]));
            if self.tags[i].0 == k {
                assert(self@.tags[i as int].0 == key@);
                return Some(&self.tags[i].1);
            }
            i = i + 1;
        }
        None
    }
}

/// The table of parsed statements, by name, in the order in which their
/// `name` tags appeared. Names are unique.
#[derive(Debug, Clone)]
pub struct Queries {
    entries: Vec<(String, Query)>,
}

pub open spec fn entry_view(e: (String, Query)) -> (Seq<char>, QueryModel) {
    (e.0@, e.1@)
}

impl View for Queries {
    type V = Seq<(Seq<char>, QueryModel)>;

    closed spec fn view(&self) -> Seq<(Seq<char>, QueryModel)> {
        self.entries@.map_values(|e: (String, Query)| entry_view(e))
    }
}

impl Queries {
    pub(crate) fn from_entries(entries: Vec<(String, Query)>) -> (r: Queries)
        ensures
            r@ == entries@.map_values(|e: (String, Query)| entry_view(e)),
    {
        Queries { entries }
    }

    /// Number of statements.
    pub fn len(&self) -> (r: usize)
        ensures
            r == self@.len(),
    {
        self.entries.len()
    }

    /// The statement named `name`, if there is one.
    pub fn get(&self, name: &str) -> (r: Option<&Query>)
        ensures
            r is None <==> !has_key(self@, name@),
            r matches Some(q) ==> exists|i: int|
                0 <= i < self@.len() && self@[i].0 == name@ && q@ == self@[i].1,
    {
        let k = String::from_str(name);
        let mut i: usize = 0;
        while i < self.entries.len()
            invariant
                i <= self.entries.len(),
                forall|j: int| 0 <= j < i ==> self@[j].0 != name@,
                k@ == name@,
                self@.len() == self.entries.len(),
            decreases self.entries.len() - i,
        {
            assert(self@[i as int] == entry_view(self.entries@[i as int]));
            if self.entries[i].0 == k {
                assert(self@[i as int].0 == name@);
                return Some(&self.entries[i].1);
            }
            i = i + 1;
        }
        None
    }

    /// Takes the statement named `name` out of the table, if there is one.
    pub fn remove(&mut self, name: &str) -> (r: Option<Query>)
        ensures
            r is None <==> !has_key(old(self)@, name@),
            r is None ==> final(self)@ == old(self)@,
            r matches Some(q) ==> exists|i: int|
                0 <= i < old(self)@.len() && old(self)@[i].0 == name@ && q@ == old(self)@[i].1
                    && final(self)@ == old(self)@.remove(i),
    {
        let k = String::from_str(name);
        let mut i: usize = 0;
        while i < self.entries.len()
            invariant
                i <= self.entries.len(),
                *self == *old(self),
                forall|j: int| 0 <= j < i ==> self@[j].0 != name@,
                k@ == name@,
                self@.len() == self.entries.len(),
            decreases self.entries.len() - i,
        {
            assert(self@[i as int] == entry_view(self.entries@[i as int]));
            if self.entries[i].0 == k {
                assert(old(self)@[i as int].0 == name@);
                let e = self.entries.remove(i);
                assert(self@ =~= old(self)@.remove(i as int));
                return Some(e.1);
            }
            i = i + 1;
        }
        None
    }
}

} // verus!
