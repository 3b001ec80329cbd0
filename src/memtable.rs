use chashmap::CHashMap;
use vstd::prelude::*;

verus! {

/// A value stored for a key: the bytes written, or a deletion marker.
#[derive(Clone, Debug)]
pub enum MemValue {
    Value(Vec<u8>),
    Delete,
}

impl View for MemValue {
    /// `Some(bytes)` for a present value, `None` for a tombstone.
    type V = Option<Seq<u8>>;

    open spec fn view(&self) -> Option<Seq<u8>> {
        match self {
            MemValue::Value(v) => Some(v@),
            MemValue::Delete => None,
        }
    }
}

/// Tag byte of a present value in the index file format.
pub const TAG_VALUE: u8 = 0;

/// Tag byte of a tombstone in the index file format.
pub const TAG_DELETE: u8 = 1;

/// The tag byte that the index file format records for a value.
pub open spec fn tag_of(v: Option<Seq<u8>>) -> u8 {
    if v is Some {
        TAG_VALUE
    } else {
        TAG_DELETE
    }
}

impl MemValue {
    /// The tag byte of this value in the index file: 0 for a value, 1 for a tombstone.
    pub fn encode(&self) -> (r: u8)
        ensures
            r == tag_of(self@),
    {
        match *self {
            MemValue::Value(_) => TAG_VALUE,
            MemValue::Delete => TAG_DELETE,
        }
    }

    /// A copy of this value.
    pub fn duplicate(&self) -> (r: MemValue)
        ensures
            r@ == self@,
    {
        match self {
            MemValue::Value(v) => MemValue::Value(v.clone()),
            MemValue::Delete => MemValue::Delete,
        }
    }
}

/// Makes `chashmap::CHashMap` usable in the library's types; its contents are
/// reached only through the functions below.
#[verifier::external_type_specification]
#[verifier::external_body]
#[verifier::reject_recursive_types(K)]
#[verifier::reject_recursive_types(V)]
pub struct ExCHashMap<K, V>(CHashMap<K, V>);

/// What a concurrent map of buffered writes holds: each key's bytes mapped to
/// the view of its value.
pub uninterp spec fn chmap_contents(m: CHashMap<Vec<u8>, MemValue>) -> Map<Seq<u8>, Option<Seq<u8>>>;

/// Relies on `CHashMap::new`: the new map holds no entries.
#[verifier::external_body]
fn chmap_new() -> (m: CHashMap<Vec<u8>, MemValue>)
    ensures
        chmap_contents(m) == empty_map(),
{
    CHashMap::new()
}

/// Relies on `CHashMap::get`: the entry of the key, if any, handed out as a copy.
#[verifier::external_body]
fn chmap_get(m: &CHashMap<Vec<u8>, MemValue>, key: &[u8]) -> (r: Option<MemValue>)
    ensures
        r is Some == chmap_contents(*m).dom().contains(key@),
        r matches Some(v) ==> v@ == chmap_contents(*m)[key@],
        !chmap_contents(*m).dom().contains(key@) ==> r is None,
{
    m.get(key).map(|g| g.duplicate())
}

/// Relies on `CHashMap::insert`: the key afterwards maps to the value, and no
/// other entry changes.
#[verifier::external_body]
fn chmap_insert(m: &mut CHashMap<Vec<u8>, MemValue>, key: Vec<u8>, value: MemValue)
    ensures
        chmap_contents(*final(m)) == chmap_contents(*old(m)).insert(key@, value@),
{
    m.insert(key, value);
}

/// Relies on `CHashMap::is_empty`: whether the map holds no entries.
#[verifier::external_body]
fn chmap_is_empty(m: &CHashMap<Vec<u8>, MemValue>) -> (r: bool)
    ensures
        r == (chmap_contents(*m) == empty_map()),
{
    m.is_empty()
}

/// Relies on `CHashMap::clone`: the copy holds the same entries.
#[verifier::external_body]
fn chmap_clone(m: &CHashMap<Vec<u8>, MemValue>) -> (r: CHashMap<Vec<u8>, MemValue>)
    ensures
        chmap_contents(r) == chmap_contents(*m),
{
    m.clone()
}

/// Relies on `CHashMap::into_iter`: each entry comes out once, in an order that
/// the map does not fix.
#[verifier::external_body]
fn chmap_into_entries(m: CHashMap<Vec<u8>, MemValue>) -> (r: Vec<(Vec<u8>, MemValue)>)
    ensures
        keys_unique(entries_view(r@)),
        entries_map(entries_view(r@)) == chmap_contents(m),
{
    m.into_iter().collect()
}

/// The map with no entries.
pub open spec fn empty_map() -> Map<Seq<u8>, Option<Seq<u8>>> {
    Map::empty()
}

/// The view of a sequence of buffered entries.
pub open spec fn entries_view(s: Seq<(Vec<u8>, MemValue)>) -> Seq<(Seq<u8>, Option<Seq<u8>>)> {
    s.map_values(|e: (Vec<u8>, MemValue)| (e.0@, e.1@))
}

/// No key occurs twice in the sequence.
pub open spec fn keys_unique<T>(s: Seq<(Seq<u8>, T)>) -> bool {
    forall|i: int, j: int| 0 <= i < j < s.len() ==> s[i].0 != s[j].0
}

/// The map that a sequence of entries describes, a later entry of a key
/// replacing an earlier one.
pub open spec fn entries_map<T>(s: Seq<(Seq<u8>, T)>) -> Map<Seq<u8>, T>
    decreases s.len(),
{
    if s.len() == 0 {
        Map::empty()
    } else {
        entries_map(s.drop_last()).insert(s.last().0, s.last().1)
    }
}

/// The in-memory buffer of recent writes, with an estimate of its size in bytes.
pub struct MemTable {
    table: CHashMap<Vec<u8>, MemValue>,
    size: usize,
}

impl View for MemTable {
    type V = Map<Seq<u8>, Option<Seq<u8>>>;

    closed spec fn view(&self) -> Map<Seq<u8>, Option<Seq<u8>>> {
        chmap_contents(self.table)
    }
}

/// `a + b`, or `usize::MAX` where the sum does not fit.
pub open spec fn saturating_sum(a: int, b: int) -> int {
    if a + b > usize::MAX {
        usize::MAX as int
    } else {
        a + b
    }
}

impl MemTable {
    /// The size estimate: bytes of keys and values written since the buffer was created.
    pub closed spec fn spec_size(&self) -> nat {
        self.size as nat
    }

    /// An empty buffer.
    pub fn new() -> (t: MemTable)
        ensures
            t@ == empty_map(),
            t.spec_size() == 0,
    {
        MemTable { table: chmap_new(), size: 0 }
    }

    /// The value buffered for the key, if any.
    pub fn get(&self, key: &[u8]) -> (r: Option<MemValue>)
        ensures
            r is Some == self@.dom().contains(key@),
            r matches Some(v) ==> v@ == self@[key@],
    {
        chmap_get(&self.table, key)
    }

    /// Buffers a value for the key, replacing any earlier one; the size
    /// estimate grows by the lengths of key and value.
    pub fn put(&mut self, key: &[u8], value: &[u8])
        ensures
            final(self)@ == old(self)@.insert(key@, Some(value@)),
            final(self).spec_size() == saturating_sum(
                old(self).spec_size() as int,
                (key@.len() + value@.len()) as int,
            ),
    {
        let k = copy_bytes(key);
        let v = copy_bytes(value);
        chmap_insert(&mut self.table, k, MemValue::Value(v));
        self.size = self.size.saturating_add(key.len()).saturating_add(value.len());
    }

    /// Buffers a tombstone for the key; the size estimate grows by the key's length.
    pub fn delete(&mut self, key: &[u8])
        ensures
            final(self)@ == old(self)@.insert(key@, None),
            final(self).spec_size() == saturating_sum(old(self).spec_size() as int, key@.len() as int),
    {
        let k = copy_bytes(key);
        chmap_insert(&mut self.table, k, MemValue::Delete);
        self.size = self.size.saturating_add(key.len());
    }

    /// The size estimate in bytes.
    pub fn size(&self) -> (r: usize)
        ensures
            r == self.spec_size(),
    {
        self.size
    }

    /// Whether the buffer holds no entries.
    pub fn is_empty(&self) -> (r: bool)
        ensures
            r == (self@ == empty_map()),
    {
        chmap_is_empty(&self.table)
    }

    /// Empties the buffer and returns what it held.
    pub fn clear(&mut self) -> (r: MemTable)
        ensures
            r@ == old(self)@,
            r.spec_size() == old(self).spec_size(),
            final(self)@ == empty_map(),
            final(self).spec_size() == 0,
    {
        let mut taken = MemTable::new();
        std::mem::swap(self, &mut taken);
        taken
    }

    /// The buffered entries, each key once, in no fixed order.
    pub fn entries(&self) -> (r: Vec<(Vec<u8>, MemValue)>)
        ensures
            keys_unique(entries_view(r@)),
            entries_map(entries_view(r@)) == self@,
    {
        chmap_into_entries(chmap_clone(&self.table))
    }
}

/// A copy of the bytes.
pub fn copy_bytes(b: &[u8]) -> (r: Vec<u8>)
    ensures
        r@ == b@,
{
    let mut r: Vec<u8> = Vec::with_capacity(b.len());
    let mut i: usize = 0;
    while i < b.len()
        invariant
            i <= b@.len(),
            r@ == b@.subrange(0, i as int),
        decreases b@.len() - i,
    {
        r.push(b[i]);
        i = i + 1;
    }
    r
}

} // verus!
