//! A table of header fields: names mapped to values, each name at most once.
use vstd::prelude::*;
use vstd::string::*;

verus! {

/// A header table's contents: `(name, value)` pairs in the order the names were
/// first inserted.
pub type HeaderEntries = Seq<(Seq<char>, Seq<char>)>;

/// No name occurs twice.
pub open spec fn names_distinct(e: HeaderEntries) -> bool {
    forall|i: int, j: int| 0 <= i < j < e.len() ==> e[i].0 != e[j].0
}

/// The first position at or after `i` that holds `name`.
pub open spec fn index_from(e: HeaderEntries, name: Seq<char>, i: int) -> Option<int>
    decreases e.len() - i,
{
    if i < 0 || i >= e.len() {
        None
    } else if e[i].0 == name {
        Some(i)
    } else {
        index_from(e, name, i + 1)
    }
}

/// The position that holds `name`.
pub open spec fn index_of(e: HeaderEntries, name: Seq<char>) -> Option<int> {
    index_from(e, name, 0)
}

/// The value stored under `name`.
pub open spec fn lookup(e: HeaderEntries, name: Seq<char>) -> Option<Seq<char>> {
    match index_of(e, name) {
        Some(i) => Some(e[i].1),
        None => None,
    }
}

/// The table after storing `value` under `name`: an existing entry is
/// overwritten in place, otherwise the pair is added at the end.
pub open spec fn insert_entry(e: HeaderEntries, name: Seq<char>, value: Seq<char>) -> HeaderEntries {
    match index_of(e, name) {
        Some(i) => e.update(i, (name, value)),
        None => e.push((name, value)),
    }
}

pub proof fn lemma_index_from(e: HeaderEntries, name: Seq<char>, i: int)
    requires
        0 <= i,
    ensures
        index_from(e, name, i) matches Some(k) ==> i <= k < e.len() && e[k].0 == name && forall|
            m: int,
        |
            i <= m < k ==> e[m].0 != name,
        index_from(e, name, i) is None ==> forall|m: int| i <= m < e.len() ==> e[m].0 != name,
    decreases e.len() - i,
{
    if i < e.len() && e[i].0 != name {
        lemma_index_from(e, name, i + 1);
    }
}

pub proof fn lemma_index_of(e: HeaderEntries, name: Seq<char>)
    ensures
        index_of(e, name) matches Some(k) ==> 0 <= k < e.len() && e[k].0 == name && forall|m: int|
            0 <= m < k ==> e[m].0 != name,
        index_of(e, name) is None <==> forall|m: int| 0 <= m < e.len() ==> e[m].0 != name,
{
    lemma_index_from(e, name, 0);
}

/// `index_of` is the first position holding the name, and nothing else.
proof fn lemma_index_of_is(e: HeaderEntries, name: Seq<char>, k: Option<int>)
    requires
        k matches Some(k) ==> 0 <= k < e.len() && e[k].0 == name && forall|m: int|
            0 <= m < k ==> e[m].0 != name,
        k is None ==> forall|m: int| 0 <= m < e.len() ==> e[m].0 != name,
    ensures
        index_of(e, name) == k,
{
    lemma_index_of(e, name);
    if let Some(k1) = index_of(e, name) {
        if let Some(k) = k {
            if k1 < k {
                assert(e[k1].0 != name);
            } else if k < k1 {
                assert(e[k].0 != name);
            }
        } else {
            assert(e[k1].0 != name);
        }
    } else {
        if let Some(k) = k {
            assert(e[k].0 != name);
        }
    }
}

/// Storing a value keeps every name unique, and a later lookup of that name
/// gives the value back while every other name keeps its value.
pub proof fn lemma_insert_then_lookup(
    e: HeaderEntries,
    name: Seq<char>,
    value: Seq<char>,
    other: Seq<char>,
)
    requires
        names_distinct(e),
    ensures
        names_distinct(insert_entry(e, name, value)),
        lookup(insert_entry(e, name, value), name) == Some(value),
        other != name ==> lookup(insert_entry(e, name, value), other) == lookup(e, other),
{
    let e2 = insert_entry(e, name, value);
    lemma_index_of(e, name);
    lemma_index_of(e, other);
    match index_of(e, name) {
        Some(i) => {
            assert(e2 == e.update(i, (name, value)));
            assert forall|m: int| 0 <= m < e2.len() implies e2[m].0 == e[m].0 by {}
            lemma_index_of_is(e2, name, Some(i));
            lemma_index_of_is(e2, other, index_of(e, other));
            if other != name {
                if let Some(j) = index_of(e, other) {
                    assert(j != i);
                    assert(e2[j] == e[j]);
                }
            }
        },
        None => {
            assert(e2 == e.push((name, value)));
            assert forall|m: int| 0 <= m < e.len() implies e2[m] == e[m] by {}
            lemma_index_of_is(e2, name, Some(e.len() as int));
            if other != name {
                lemma_index_of_is(e2, other, index_of(e, other));
                if let Some(j) = index_of(e, other) {
                    assert(e2[j] == e[j]);
                }
            }
        },
    }
}

/// A table of header fields, looked up by name like a map.
pub struct Headers {
    entries: Vec<(String, String)>,
}

impl View for Headers {
    type V = HeaderEntries;

    closed spec fn view(&self) -> HeaderEntries {
        self.entries@.map_values(|e: (String, String)| (e.0@, e.1@))
    }
}

impl Headers {
    #[verifier::type_invariant]
    closed spec fn inv(self) -> bool {
        names_distinct(self@)
    }

    /// An empty table.
    pub fn new() -> (r: Headers)
        ensures
            r@ == Seq::<(Seq<char>, Seq<char>)>::empty(),
    {
        let r = Headers { entries: Vec::new() };
        assert(r@ =~= Seq::<(Seq<char>, Seq<char>)>::empty());
        r
    }

    /// The number of names in the table.
    pub fn len(&self) -> (r: usize)
        ensures
            r == self@.len(),
    {
        self.entries.len()
    }

    /// The position of `name`.
    fn position(&self, name: &String) -> (r: Option<usize>)
        ensures
            r matches Some(i) ==> index_of(self@, name@) == Some(i as int),
            r is None ==> index_of(self@, name@) is None,
            r matches Some(i) ==> i < self@.len(),
    {
        let mut i: usize = 0;
        let n = self.entries.len();
        while i < n
            invariant
                n == self@.len(),
                i <= n,
                index_of(self@, name@) == index_from(self@, name@, i as int),
            decreases n - i,
        {
            if self.entries[i].0 == *name {
                return Some(i);
            }
            i = i + 1;
        }
        None
    }

    /// The value stored under `name` (`HashMap::get`).
    pub fn get(&self, name: &str) -> (r: Option<&String>)
        ensures
            r matches Some(v) ==> lookup(self@, name@) == Some(v@),
            r is None <==> lookup(self@, name@) is None,
    {
        let key = String::from_str(name);
        match self.position(&key) {
            Some(i) => Some(&self.entries[i].1),
            None => None,
        }
    }

    /// Whether a value is stored under `name` (`HashMap::contains_key`).
    pub fn contains_key(&self, name: &str) -> (r: bool)
        ensures
            r == lookup(self@, name@) is Some,
    {
        let key = String::from_str(name);
        self.position(&key).is_some()
    }

    /// Stores `value` under `name`, and returns the value it replaces (`HashMap::insert`).
    pub fn insert(&mut self, name: String, value: String) -> (r: Option<String>)
        ensures
            final(self)@ == insert_entry(old(self)@, name@, value@),
            r matches Some(v) ==> lookup(old(self)@, name@) == Some(v@),
            r is None <==> lookup(old(self)@, name@) is None,
    {
        proof {
            use_type_invariant(&*self);
            lemma_insert_then_lookup(self@, name@, value@, name@);
        }
        let ghost old_view = self@;
        match self.position(&name) {
            Some(i) => {
                let mut entries = Vec::new();
                std::mem::swap(&mut entries, &mut self.entries);
                let ghost before = entries@;
                let old_value = entries[i].1.clone();
                let ghost name_view = name@;
                let ghost value_view = value@;
                entries.set(i, (name, value));
                assert(entries@.map_values(|e: (String, String)| (e.0@, e.1@)) =~= old_view.update(
                    i as int,
                    (name_view, value_view),
                ));
                self.entries = entries;
                Some(old_value)
            },
            None => {
                let mut entries = Vec::new();
                std::mem::swap(&mut entries, &mut self.entries);
                let ghost name_view = name@;
                let ghost value_view = value@;
                entries.push((name, value));
                assert(entries@.map_values(|e: (String, String)| (e.0@, e.1@)) =~= old_view.push(
                    (name_view, value_view),
                ));
                self.entries = entries;
                None
            },
        }
    }

    /// The name and value at position `i`, in insertion order.
    pub fn entry(&self, i: usize) -> (r: (&String, &String))
        requires
            i < self@.len(),
        ensures
            r.0@ == self@[i as int].0,
            r.1@ == self@[i as int].1,
    {
        let e = &self.entries[i];
        (&e.0, &e.1)
    }
}

} // verus!
