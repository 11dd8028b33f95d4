//! `Database`: a key-unique mapping from path to text (a digest, or an error
//! description), kept as a list of pairs.

use std::collections::BTreeMap;
use vstd::prelude::*;

verus! {

/// The flat string-to-string mapping that a JSON text holds, or `None` when
/// the text is not a JSON object whose values are all strings.
pub uninterp spec fn json_string_map(text: Seq<char>) -> Option<Map<Seq<char>, Seq<char>>>;

/// The pretty-printed JSON object that holds a string-to-string mapping.
pub uninterp spec fn pretty_json(m: Map<Seq<char>, Seq<char>>) -> Seq<char>;

#[verifier::external_type_specification]
#[verifier::external_body]
pub struct ExJsonError(serde_json::Error);

/// Relies on serde_json's `from_str` into a `BTreeMap<String, String>`: it
/// succeeds exactly on a JSON object whose values are all strings; the map
/// holds each key once, and its pairs are listed as they come out of it.
#[verifier::external_body]
fn parse_string_map(text: &str) -> (r: Result<Vec<(String, String)>, serde_json::Error>)
    ensures
        r is Ok <==> json_string_map(text@) is Some,
        r is Ok ==> keys_unique(r->Ok_0@) && map_of(r->Ok_0@) == json_string_map(text@)->0,
{
    serde_json::from_str::<BTreeMap<String, String>>(text).map(|m| m.into_iter().collect())
}

/// Relies on serde_json's `to_string_pretty` on a `BTreeMap` built from the
/// pairs, whose keys are distinct so that the map holds every pair. Writing
/// fails only when a `Serialize` impl fails or a map key is not a string,
/// neither of which can happen for string pairs. The text depends on the
/// mapping alone, since the map orders its keys, and serde_json reads the
/// strings it writes back as they were.
#[verifier::external_body]
fn write_string_map(entries: &Vec<(String, String)>) -> (r: Result<String, serde_json::Error>)
    requires
        keys_unique(entries@),
    ensures
        r is Ok,
        r->Ok_0@ == pretty_json(map_of(entries@)),
        json_string_map(r->Ok_0@) == Some(map_of(entries@)),
{
    let m: BTreeMap<&String, &String> = entries.iter().map(|e| (&e.0, &e.1)).collect();
    serde_json::to_string_pretty(&m)
}

/// Relies on the `Display` text of serde_json's error, which describes it.
#[verifier::external_body]
fn json_error_text(e: &serde_json::Error) -> String {
    e.to_string()
}

/// A baseline text that could not be read.
#[derive(Debug, PartialEq, Eq)]
pub enum BaselineError {
    /// The text is not a JSON object whose values are all strings.
    Malformed(String),
}

/// No key occurs twice.
pub open spec fn keys_unique(s: Seq<(String, String)>) -> bool {
    forall|i: int, j: int| 0 <= i < j < s.len() ==> (#[trigger] s[i]).0@ != (#[trigger] s[j]).0@
}

/// The mapping that a list of pairs stands for; a later pair wins over an
/// earlier one with the same key.
pub open spec fn map_of(s: Seq<(String, String)>) -> Map<Seq<char>, Seq<char>>
    decreases s.len(),
{
    if s.len() == 0 {
        Map::empty()
    } else {
        map_of(s.drop_last()).insert(s.last().0@, s.last().1@)
    }
}

pub proof fn lemma_map_of_has(s: Seq<(String, String)>, i: int)
    requires
        keys_unique(s),
        0 <= i < s.len(),
    ensures
        map_of(s).contains_key(s[i].0@),
        map_of(s)[s[i].0@] == s[i].1@,
    decreases s.len(),
{
    if i < s.len() - 1 {
        assert(s.drop_last()[i] == s[i]);
        lemma_map_of_has(s.drop_last(), i);
        assert(s[i].0@ != s[s.len() - 1].0@);
    }
}

pub proof fn lemma_map_of_key(s: Seq<(String, String)>, k: Seq<char>)
    requires
        map_of(s).contains_key(k),
    ensures
        exists|i: int| 0 <= i < s.len() && (#[trigger] s[i]).0@ == k,
    decreases s.len(),
{
    if s.last().0@ != k {
        lemma_map_of_key(s.drop_last(), k);
        let i = choose|i: int| 0 <= i < s.drop_last().len() && (#[trigger] s.drop_last()[i]).0@ == k;
        assert(s[i] == s.drop_last()[i]);
    } else {
        assert(s[s.len() - 1].0@ == k);
    }
}

proof fn lemma_map_of_update(s: Seq<(String, String)>, i: int, e: (String, String))
    requires
        keys_unique(s),
        0 <= i < s.len(),
        s[i].0@ == e.0@,
    ensures
        map_of(s.update(i, e)) == map_of(s).insert(e.0@, e.1@),
    decreases s.len(),
{
    let t = s.update(i, e);
    if i == s.len() - 1 {
        assert(t.drop_last() =~= s.drop_last());
        assert(map_of(t) =~= map_of(s).insert(e.0@, e.1@));
    } else {
        assert(t.drop_last() =~= s.drop_last().update(i, e));
        assert(s.drop_last()[i] == s[i]);
        lemma_map_of_update(s.drop_last(), i, e);
        assert(s[i].0@ != s[s.len() - 1].0@);
        assert(map_of(t) =~= map_of(s).insert(e.0@, e.1@));
    }
}

/// A mapping from path to text with unique keys.
#[derive(Debug)]
pub struct Database {
    entries: Vec<(String, String)>,
}

impl View for Database {
    type V = Map<Seq<char>, Seq<char>>;

    closed spec fn view(&self) -> Map<Seq<char>, Seq<char>> {
        map_of(self.entries@)
    }
}

impl Database {
    /// Each key occurs in one entry only.
    pub closed spec fn wf(&self) -> bool {
        keys_unique(self.entries@)
    }

    pub fn new() -> (r: Database)
        ensures
            r.wf(),
            r@ == Map::<Seq<char>, Seq<char>>::empty(),
    {
        Database { entries: Vec::new() }
    }

    /// Position of `key` among the entries.
    fn find(&self, key: &String) -> (r: Option<usize>)
        ensures
            r is Some ==> r->0 < self.entries@.len() && self.entries@[r->0 as int].0@ == key@,
            r is None ==> forall|i: int|
                0 <= i < self.entries@.len() ==> (#[trigger] self.entries@[i]).0@ != key@,
    {
        let mut i: usize = 0;
        while i < self.entries.len()
            invariant
                i <= self.entries@.len(),
                forall|j: int| 0 <= j < i ==> (#[trigger] self.entries@[j]).0@ != key@,
            decreases self.entries@.len() - i,
        {
            if self.entries[i].0 == *key {
                return Some(i);
            }
            i = i + 1;
        }
        None
    }

    /// Sets the text for `key`, replacing any earlier one.
    pub fn insert(&mut self, key: String, value: String)
        requires
            old(self).wf(),
        ensures
            final(self).wf(),
            final(self)@ == old(self)@.insert(key@, value@),
    {
        match self.find(&key) {
            Some(i) => {
                proof {
                    lemma_map_of_update(self.entries@, i as int, (key, value));
                }
                self.entries.set(i, (key, value));
                assert(keys_unique(self.entries@));
            },
            None => {
                let ghost old_entries = self.entries@;
                self.entries.push((key, value));
                proof {
                    assert(self.entries@.drop_last() =~= old_entries);
                    assert(keys_unique(self.entries@));
                }
            },
        }
    }

    /// The text stored for `key`, if any.
    pub fn get(&self, key: &String) -> (r: Option<&String>)
        requires
            self.wf(),
        ensures
            r is Some <==> self@.contains_key(key@),
            r is Some ==> r->0@ == self@[key@],
    {
        match self.find(key) {
            Some(i) => {
                proof {
                    lemma_map_of_has(self.entries@, i as int);
                }
                Some(&self.entries[i].1)
            },
            None => {
                proof {
                    if self@.contains_key(key@) {
                        lemma_map_of_key(self.entries@, key@);
                    }
                }
                None
            },
        }
    }

    /// Whether `key` has an entry.
    pub fn contains_key(&self, key: &String) -> (r: bool)
        requires
            self.wf(),
        ensures
            r == self@.contains_key(key@),
    {
        self.get(key).is_some()
    }

    /// The entries as `(key, text)` pairs, each key once.
    pub fn entries(&self) -> (r: &Vec<(String, String)>)
        ensures
            map_of(r@) == self@,
            self.wf() ==> keys_unique(r@),
    {
        &self.entries
    }

    /// Reads a baseline: a JSON object mapping each path to its digest.
    pub fn from_json(text: &str) -> (r: Result<Database, BaselineError>)
        ensures
            r is Ok <==> json_string_map(text@) is Some,
            r is Ok ==> r->Ok_0.wf() && r->Ok_0@ == json_string_map(text@)->0,
    {
        match parse_string_map(text) {
            Ok(entries) => Ok(Database { entries }),
            Err(e) => Err(BaselineError::Malformed(json_error_text(&e))),
        }
    }

    /// Writes the mapping as a pretty-printed JSON object, keys in order.
    /// Reading the text back gives the same mapping.
    pub fn to_json(&self) -> (r: String)
        requires
            self.wf(),
        ensures
            r@ == pretty_json(self@),
            json_string_map(r@) == Some(self@),
    {
        write_string_map(&self.entries).unwrap()
    }
}

} // verus!
