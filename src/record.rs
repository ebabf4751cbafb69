//! The key/value record that a branch is stored as: what each key holds,
//! reading a key, and the errors of loading.
use vstd::prelude::*;

verus! {

/// What the store holds under a key: text, or raw bytes.
#[derive(Debug)]
pub enum Content {
    Utf8(String),
    Binary(Vec<u8>),
}

pub enum ContentView {
    Utf8(Seq<char>),
    Binary(Seq<u8>),
}

impl View for Content {
    type V = ContentView;

    open spec fn view(&self) -> ContentView {
        match self {
            Content::Utf8(s) => ContentView::Utf8(s@),
            Content::Binary(b) => ContentView::Binary(b@),
        }
    }
}

/// One stored key and its content.
#[derive(Debug)]
pub struct Entry {
    pub key: String,
    pub value: Content,
}

impl View for Entry {
    type V = (Seq<char>, ContentView);

    open spec fn view(&self) -> (Seq<char>, ContentView) {
        (self.key@, self.value@)
    }
}

/// The content under `k`: that of the first entry with that key.
pub open spec fn lookup(es: Seq<(Seq<char>, ContentView)>, k: Seq<char>) -> Option<ContentView>
    decreases es.len(),
{
    if es.len() == 0 {
        None
    } else if es[0].0 == k {
        Some(es[0].1)
    } else {
        lookup(es.drop_first(), k)
    }
}

/// An entry whose key no earlier entry has is what a lookup of that key finds.
pub proof fn lemma_lookup_at(es: Seq<(Seq<char>, ContentView)>, i: int)
    requires
        0 <= i < es.len(),
        forall|j: int| 0 <= j < i ==> (#[trigger] es[j]).0 != es[i].0,
    ensures
        lookup(es, es[i].0) == Some(es[i].1),
    decreases i,
{
    if i > 0 {
        let t = es.drop_first();
        assert(es[0].0 != es[i].0);
        assert(t[i - 1] == es[i]);
        assert forall|j: int| 0 <= j < i - 1 implies (#[trigger] t[j]).0 != t[i - 1].0 by {
            assert(t[j] == es[j + 1]);
        }
        lemma_lookup_at(t, i - 1);
    }
}

/// A key that no entry has is not found.
pub proof fn lemma_lookup_absent(es: Seq<(Seq<char>, ContentView)>, k: Seq<char>)
    requires
        forall|j: int| 0 <= j < es.len() ==> (#[trigger] es[j]).0 != k,
    ensures
        lookup(es, k) is None,
    decreases es.len(),
{
    if es.len() > 0 {
        let t = es.drop_first();
        assert(es[0].0 != k);
        assert forall|j: int| 0 <= j < t.len() implies (#[trigger] t[j]).0 != k by {
            assert(t[j] == es[j + 1]);
        }
        lemma_lookup_absent(t, k);
    }
}

/// Read access to a stored record, key by key.
#[derive(Debug)]
pub struct Reader {
    pub entries: Vec<Entry>,
}

impl View for Reader {
    type V = Seq<(Seq<char>, ContentView)>;

    open spec fn view(&self) -> Seq<(Seq<char>, ContentView)> {
        self.entries@.map_values(|e: Entry| e@)
    }
}

impl Reader {
    pub fn new(entries: Vec<Entry>) -> (r: Reader)
        ensures
            r.entries@ == entries@,
    {
        Reader { entries }
    }

    /// The content stored under `key`, or `None` where there is none.
    pub fn read(&self, key: &str) -> (r: Option<&Content>)
        ensures
            match r {
                Some(c) => lookup(self@, key@) == Some(c@),
                None => lookup(self@, key@) is None,
            },
    {
        let k = String::from_str(key);
        let mut i: usize = 0;
        proof {
            assert(self@.subrange(0, self@.len() as int) =~= self@);
        }
        while i < self.entries.len()
            invariant
                k@ == key@,
                i <= self@.len(),
                self@.len() == self.entries@.len(),
                lookup(self@, key@) == lookup(self@.subrange(i as int, self@.len() as int), key@),
            decreases self@.len() - i,
        {
            let ghost rest = self@.subrange(i as int, self@.len() as int);
            proof {
                assert(rest[0] == self.entries@[i as int]@);
                assert(rest.drop_first() =~= self@.subrange(i + 1, self@.len() as int));
            }
            if self.entries[i].key == k {
                return Some(&self.entries[i].value);
            }
            proof {
                assert(rest[0].0 != key@);
            }
            i = i + 1;
        }
        proof {
            assert(self@.subrange(self@.len() as int, self@.len() as int).len() == 0);
        }
        None
    }
}

/// The fields of a stored branch.
#[derive(Clone, Copy, Debug, PartialEq, Eq, Structural)]
pub enum Field {
    Id,
    Name,
    Notes,
    Applied,
    Order,
    UpstreamHead,
    Upstream,
    Tree,
    Head,
    CreatedTimestamp,
    UpdatedTimestamp,
    Ownership,
}

/// The key that a field is stored under.
pub open spec fn field_key(f: Field) -> Seq<char> {
    match f {
        Field::Id => "id"@,
        Field::Name => "meta/name"@,
        Field::Notes => "meta/notes"@,
        Field::Applied => "meta/applied"@,
        Field::Order => "meta/order"@,
        Field::UpstreamHead => "meta/upstream_head"@,
        Field::Upstream => "meta/upstream"@,
        Field::Tree => "meta/tree"@,
        Field::Head => "meta/head"@,
        Field::CreatedTimestamp => "meta/created_timestamp_ms"@,
        Field::UpdatedTimestamp => "meta/updated_timestamp_ms"@,
        Field::Ownership => "meta/ownership"@,
    }
}

/// Distinct fields have distinct keys.
pub proof fn lemma_keys_distinct(f: Field, g: Field)
    requires
        f != g,
    ensures
        field_key(f) != field_key(g),
{
    reveal_strlit("id");
    reveal_strlit("meta/name");
    reveal_strlit("meta/notes");
    reveal_strlit("meta/applied");
    reveal_strlit("meta/order");
    reveal_strlit("meta/upstream_head");
    reveal_strlit("meta/upstream");
    reveal_strlit("meta/tree");
    reveal_strlit("meta/head");
    reveal_strlit("meta/created_timestamp_ms");
    reveal_strlit("meta/updated_timestamp_ms");
    reveal_strlit("meta/ownership");
    assert(field_key(f).len() != field_key(g).len() || field_key(f)[5] != field_key(g)[5]);
}

impl Field {
    /// The key this field is stored under.
    pub fn key(&self) -> (r: &'static str)
        ensures
            r@ == field_key(*self),
    {
        match self {
            Field::Id => "id",
            Field::Name => "meta/name",
            Field::Notes => "meta/notes",
            Field::Applied => "meta/applied",
            Field::Order => "meta/order",
            Field::UpstreamHead => "meta/upstream_head",
            Field::Upstream => "meta/upstream",
            Field::Tree => "meta/tree",
            Field::Head => "meta/head",
            Field::CreatedTimestamp => "meta/created_timestamp_ms",
            Field::UpdatedTimestamp => "meta/updated_timestamp_ms",
            Field::Ownership => "meta/ownership",
        }
    }
}

/// What is wrong with a stored value that is present.
#[derive(Clone, Copy, Debug, PartialEq, Eq, Structural)]
pub enum Cause {
    /// Raw bytes where text was expected.
    NotText,
    /// Not a branch identifier.
    MalformedIdentifier,
    /// Not an object identifier.
    MalformedOid,
    /// Not an unsigned decimal number in range.
    MalformedNumber,
    /// Not a remote reference name.
    MalformedRefname,
    /// Not an ownership text.
    MalformedOwnership,
}

/// Why a branch could not be loaded, naming the field at fault.
#[derive(Clone, Copy, Debug, PartialEq, Eq, Structural)]
pub enum LoadError {
    /// A mandatory key is missing.
    NotFound(Field),
    /// A key is present but its content cannot be read as its field.
    Invalid(Field, Cause),
}

impl LoadError {
    /// The key of the field at fault.
    pub fn key(&self) -> (r: &'static str)
        ensures
            r@ == field_key(match self { LoadError::NotFound(f) => *f, LoadError::Invalid(f, _) => *f }),
    {
        match self {
            LoadError::NotFound(f) => f.key(),
            LoadError::Invalid(f, _) => f.key(),
        }
    }
}

} // verus!
