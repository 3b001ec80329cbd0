use crate::errors::{unexpected_eof, Error, Result};
use crate::memtable::{copy_bytes, entries_map, keys_unique, MemValue, TAG_DELETE, TAG_VALUE};
use byteorder::{BigEndian, ByteOrder};
use vstd::prelude::*;

verus! {

/// The eight bytes of `n`, most significant first.
pub open spec fn be64(n: u64) -> Seq<u8> {
    seq![
        ((n >> 56u64) & 0xff) as u8,
        ((n >> 48u64) & 0xff) as u8,
        ((n >> 40u64) & 0xff) as u8,
        ((n >> 32u64) & 0xff) as u8,
        ((n >> 24u64) & 0xff) as u8,
        ((n >> 16u64) & 0xff) as u8,
        ((n >> 8u64) & 0xff) as u8,
        (n & 0xff) as u8,
    ]
}

/// The number whose big-endian bytes are the first eight of `s`.
pub open spec fn be64_value(s: Seq<u8>) -> u64
    recommends
        s.len() >= 8,
{
    (s[0] as u64) << 56u64 | (s[1] as u64) << 48u64 | (s[2] as u64) << 40u64 | (s[3] as u64)
        << 32u64 | (s[4] as u64) << 24u64 | (s[5] as u64) << 16u64 | (s[6] as u64) << 8u64
        | (s[7] as u64)
}

/// Reading back the bytes of a number gives the number.
pub proof fn lemma_be64_round_trip(n: u64)
    ensures
        be64(n).len() == 8,
        be64_value(be64(n)) == n,
{
    let s = be64(n);
    assert(s.len() == 8);
    assert forall|k: u64| k < 64 implies (((#[trigger] (n >> k)) & 0xff) as u8) as u64 == (n >> k)
        & 0xff by {
        assert((n >> k) & 0xff < 256) by (bit_vector);
    }
    assert((n >> 0u64) == n) by (bit_vector);
    assert(((n >> 56u64) & 0xff) << 56u64 | ((n >> 48u64) & 0xff) << 48u64 | ((n >> 40u64) & 0xff)
        << 40u64 | ((n >> 32u64) & 0xff) << 32u64 | ((n >> 24u64) & 0xff) << 24u64 | ((n >> 16u64)
        & 0xff) << 16u64 | ((n >> 8u64) & 0xff) << 8u64 | (n & 0xff) == n) by (bit_vector);
}

/// Relies on byteorder's `BigEndian::write_u64`: it stores `n` most significant
/// byte first into the first eight bytes of the buffer.
#[verifier::external_body]
fn u64_to_be(n: u64) -> (r: Vec<u8>)
    ensures
        r@ == be64(n),
{
    let mut buf = vec![0u8; 8];
    BigEndian::write_u64(&mut buf, n);
    buf
}

/// Relies on byteorder's `BigEndian::read_u64`: it reads the first eight bytes
/// of the buffer, most significant first; it panics on fewer.
#[verifier::external_body]
fn u64_from_be(buf: &[u8]) -> (r: u64)
    requires
        buf@.len() >= 8,
    ensures
        r == be64_value(buf@),
{
    BigEndian::read_u64(buf)
}

/// The eight big-endian bytes of a number, as stored in the metadata file and
/// as the length and offset fields of the generation files.
pub fn encode_u64(n: u64) -> (r: Vec<u8>)
    ensures
        r@ == be64(n),
{
    u64_to_be(n)
}

/// The number stored in the metadata file: its first eight bytes, big-endian.
/// A file shorter than that is an I/O error, as a read that ends early is.
pub fn decode_metadata(buf: &[u8]) -> (r: Result<u64>)
    ensures
        buf@.len() >= 8 ==> r == Ok::<u64, Error>(be64_value(buf@)),
        buf@.len() < 8 ==> r matches Err(Error::IOError(_)),
{
    if buf.len() < 8 {
        return Err(Error::IOError(unexpected_eof()));
    }
    Ok(u64_from_be(buf))
}

/// A length-prefixed byte string: its length in eight big-endian bytes, then the bytes.
pub open spec fn length_prefixed(b: Seq<u8>) -> Seq<u8> {
    be64(b.len() as u64) + b
}

/// The bytes of one index entry: the length-prefixed key, the tag byte, and
/// for a present value the offset of its record in the data file.
pub open spec fn index_entry(key: Seq<u8>, value: Option<Seq<u8>>, offset: u64) -> Seq<u8> {
    match value {
        Some(_) => length_prefixed(key) + seq![TAG_VALUE] + be64(offset),
        None => length_prefixed(key) + seq![TAG_DELETE],
    }
}

/// The bytes that a value adds to the data file: a length-prefixed record for
/// a present value, nothing for a tombstone.
pub open spec fn data_record(value: Option<Seq<u8>>) -> Seq<u8> {
    match value {
        Some(v) => length_prefixed(v),
        None => Seq::empty(),
    }
}

/// The data file of a generation holding the entries, in order.
pub open spec fn gen_data(e: Seq<(Seq<u8>, Option<Seq<u8>>)>) -> Seq<u8>
    decreases e.len(),
{
    if e.len() == 0 {
        Seq::empty()
    } else {
        gen_data(e.drop_last()) + data_record(e.last().1)
    }
}

/// The index file of a generation holding the entries, in order; each present
/// value's offset is the length of the data written before it.
pub open spec fn gen_index(e: Seq<(Seq<u8>, Option<Seq<u8>>)>) -> Seq<u8>
    decreases e.len(),
{
    if e.len() == 0 {
        Seq::empty()
    } else {
        gen_index(e.drop_last()) + index_entry(
            e.last().0,
            e.last().1,
            gen_data(e.drop_last()).len() as u64,
        )
    }
}

/// The two files of one generation, ready to be written.
pub struct FlushedTable {
    /// Id of the generation: the files are `<file_no>.ix` and `<file_no>.dt`.
    pub file_no: u64,
    /// Contents of the data file.
    pub data: Vec<u8>,
    /// Contents of the index file.
    pub index: Vec<u8>,
}

/// Builds the index and data files of successive generations.
pub struct TableBuilder {
    db_name: String,
    file_no: u64,
    data: Vec<u8>,
    index: Vec<u8>,
    offset: u64,
}

impl TableBuilder {
    /// Offsets agree with the data built so far.
    pub closed spec fn wf(&self) -> bool {
        self.offset == self.data@.len()
    }

    /// Id of the generation being built.
    pub closed spec fn spec_file_no(&self) -> u64 {
        self.file_no
    }

    /// Index file built so far.
    pub closed spec fn index_bytes(&self) -> Seq<u8> {
        self.index@
    }

    /// Data file built so far.
    pub closed spec fn data_bytes(&self) -> Seq<u8> {
        self.data@
    }

    /// Directory that the generations are written to.
    pub closed spec fn spec_db_name(&self) -> Seq<char> {
        self.db_name@
    }

    /// A builder for generation `file_no` in the directory, with nothing added.
    pub fn new(db_name: &str, file_no: u64) -> (b: TableBuilder)
        ensures
            b.wf(),
            b.spec_file_no() == file_no,
            b.spec_db_name() == db_name@,
            b.index_bytes() == Seq::<u8>::empty(),
            b.data_bytes() == Seq::<u8>::empty(),
    {
        TableBuilder {
            db_name: db_name.to_string(),
            file_no,
            data: Vec::new(),
            index: Vec::new(),
            offset: 0,
        }
    }

    /// Appends the key and its value's tag (and, for a present value, the offset
    /// of its record) to the index, and the value's record to the data.
    pub fn add(&mut self, key: &[u8], value: &MemValue)
        requires
            old(self).wf(),
        ensures
            final(self).wf(),
            final(self).spec_file_no() == old(self).spec_file_no(),
            final(self).spec_db_name() == old(self).spec_db_name(),
            final(self).index_bytes() == old(self).index_bytes() + index_entry(
                key@,
                value@,
                old(self).data_bytes().len() as u64,
            ),
            final(self).data_bytes() == old(self).data_bytes() + data_record(value@),
    {
        let mut k = Self::encode(key);
        self.index.append(&mut k);
        self.index.push(value.encode());
        match value {
            MemValue::Value(val) => {
                let mut off = u64_to_be(self.offset);
                self.index.append(&mut off);
                let mut rec = Self::encode(val.as_slice());
                self.data.append(&mut rec);
                self.offset = self.data.len() as u64;
            },
            MemValue::Delete => {},
        }
        proof {
            let kv = key@;
            assert(self.index@ =~= old(self).index@ + index_entry(
                kv,
                value@,
                old(self).data@.len() as u64,
            ));
        }
    }

    /// `data` prefixed with its length in eight big-endian bytes.
    fn encode(data: &[u8]) -> (r: Vec<u8>)
        ensures
            r@ == length_prefixed(data@),
    {
        let mut r = u64_to_be(data.len() as u64);
        let mut i: usize = 0;
        while i < data.len()
            invariant
                i <= data@.len(),
                r@ == be64(data@.len() as u64) + data@.subrange(0, i as int),
            decreases data@.len() - i,
        {
            r.push(data[i]);
            i = i + 1;
        }
        r
    }

    /// Hands out the generation built so far and starts the next one: empty
    /// buffers, offset zero, the next id.
    pub fn flush(&mut self) -> (r: FlushedTable)
        requires
            old(self).wf(),
            old(self).spec_file_no() < u64::MAX,
        ensures
            final(self).wf(),
            r.file_no == old(self).spec_file_no(),
            r.data@ == old(self).data_bytes(),
            r.index@ == old(self).index_bytes(),
            final(self).spec_file_no() == old(self).spec_file_no() + 1,
            final(self).spec_db_name() == old(self).spec_db_name(),
            final(self).index_bytes() == Seq::<u8>::empty(),
            final(self).data_bytes() == Seq::<u8>::empty(),
    {
        let mut data: Vec<u8> = Vec::new();
        let mut index: Vec<u8> = Vec::new();
        std::mem::swap(&mut data, &mut self.data);
        std::mem::swap(&mut index, &mut self.index);
        self.offset = 0;
        let file_no = self.file_no;
        self.file_no = self.file_no + 1;
        FlushedTable { file_no, data, index }
    }

    /// Id of the generation being built, which is also the number of
    /// generations built before it.
    pub fn file_no(&self) -> (r: u64)
        ensures
            r == self.spec_file_no(),
    {
        self.file_no
    }
}

/// What the index records for a key: the offset of its value's record in the
/// data file, or a tombstone.
#[derive(Clone, Copy, Debug, PartialEq, Eq, Structural)]
pub enum IndexValue {
    Offset(u64),
    Delete,
}

/// `Some(x + s)` where `o` is `Some(s)`; `None` where it is `None`.
pub open spec fn prefixed<T>(x: Seq<T>, o: Option<Seq<T>>) -> Option<Seq<T>> {
    match o {
        Some(s) => Some(x + s),
        None => None,
    }
}

/// The entries of an index file, in order, or `None` where the bytes are not
/// a sequence of whole, well-tagged entries.
pub open spec fn parse_index(b: Seq<u8>) -> Option<Seq<(Seq<u8>, IndexValue)>>
    decreases b.len(),
{
    if b.len() == 0 {
        Some(Seq::empty())
    } else if b.len() < 8 {
        None
    } else {
        let t = 8 + be64_value(b) as int;
        if t >= b.len() {
            None
        } else if b[t] == TAG_VALUE {
            if t + 9 > b.len() {
                None
            } else {
                prefixed(
                    seq![(b.subrange(8, t), IndexValue::Offset(be64_value(b.subrange(t + 1, t + 9))))],
                    parse_index(b.subrange(t + 9, b.len() as int)),
                )
            }
        } else if b[t] == TAG_DELETE {
            prefixed(
                seq![(b.subrange(8, t), IndexValue::Delete)],
                parse_index(b.subrange(t + 1, b.len() as int)),
            )
        } else {
            None
        }
    }
}

/// The value of the record that starts at `off` in a data file, or `None`
/// where the file ends before the record does.
pub open spec fn record_at(d: Seq<u8>, off: int) -> Option<Seq<u8>> {
    if 0 <= off && off + 8 <= d.len() && off + 8 + be64_value(d.subrange(off, off + 8)) <= d.len() {
        Some(d.subrange(off + 8, off + 8 + be64_value(d.subrange(off, off + 8))))
    } else {
        None
    }
}

/// What a generation holds for key `k`, given its index map and data file:
/// `None` where a recorded offset leads past the end of the data, otherwise
/// `Some(None)` for an absent key and `Some(Some(v))` for the view `v` of the
/// value found.
pub open spec fn read_spec(m: Map<Seq<u8>, IndexValue>, k: Seq<u8>, d: Seq<u8>) -> Option<
    Option<Option<Seq<u8>>>,
> {
    if !m.dom().contains(k) {
        Some(None)
    } else {
        match m[k] {
            IndexValue::Delete => Some(Some(None)),
            IndexValue::Offset(o) => match record_at(d, o as int) {
                Some(v) => Some(Some(Some(v))),
                None => None,
            },
        }
    }
}

/// The view of a lookup result.
pub open spec fn found_view(x: Option<MemValue>) -> Option<Option<Seq<u8>>> {
    match x {
        Some(v) => Some(v@),
        None => None,
    }
}

/// The view of parsed index entries.
pub open spec fn index_view(s: Seq<(Vec<u8>, IndexValue)>) -> Seq<(Seq<u8>, IndexValue)> {
    s.map_values(|e: (Vec<u8>, IndexValue)| (e.0@, e.1))
}

/// Where no entry from `i` on has key `k`, the entries up to `i` decide what the
/// whole sequence maps `k` to.
proof fn lemma_entries_map_skip<T>(s: Seq<(Seq<u8>, T)>, i: int, k: Seq<u8>)
    requires
        0 <= i <= s.len(),
        forall|j: int| i <= j < s.len() ==> s[j].0 != k,
    ensures
        entries_map(s).dom().contains(k) == entries_map(s.take(i)).dom().contains(k),
        entries_map(s).dom().contains(k) ==> entries_map(s)[k] == entries_map(s.take(i))[k],
    decreases s.len(),
{
    if s.len() > i {
        lemma_entries_map_skip(s.drop_last(), i, k);
        assert(s.drop_last().take(i) =~= s.take(i));
    } else {
        assert(s.take(i) =~= s);
    }
}

/// What the index of a generation records for a value whose record would start
/// at `offset`.
pub open spec fn index_value_of(value: Option<Seq<u8>>, offset: u64) -> IndexValue {
    match value {
        Some(_) => IndexValue::Offset(offset),
        None => IndexValue::Delete,
    }
}

/// The entries that the index of a generation holding `e` records, in order.
pub open spec fn index_model(e: Seq<(Seq<u8>, Option<Seq<u8>>)>) -> Seq<(Seq<u8>, IndexValue)> {
    Seq::new(
        e.len(),
        |i: int| (e[i].0, index_value_of(e[i].1, gen_data(e.take(i)).len() as u64)),
    )
}

/// An index file made of one entry parses to that entry.
proof fn lemma_parse_one_entry(key: Seq<u8>, value: Option<Seq<u8>>, offset: u64)
    requires
        key.len() <= u64::MAX,
    ensures
        parse_index(index_entry(key, value, offset)) == Some(
            seq![(key, index_value_of(value, offset))],
        ),
{
    let b = index_entry(key, value, offset);
    let klen = key.len() as u64;
    lemma_be64_round_trip(klen);
    lemma_be64_round_trip(offset);
    assert(be64_value(b) == be64_value(be64(klen)));
    let t = 8 + klen as int;
    assert(b.subrange(8, t) =~= key);
    let rest_start = if value is Some { t + 9 } else { t + 1 };
    assert(b.subrange(rest_start, b.len() as int) =~= Seq::<u8>::empty());
    if value is Some {
        assert(b.subrange(t + 1, t + 9) =~= be64(offset));
    }
    assert(parse_index(Seq::<u8>::empty()) == Some(Seq::<(Seq<u8>, IndexValue)>::empty()));
    assert(seq![(key, index_value_of(value, offset))] + Seq::<(Seq<u8>, IndexValue)>::empty()
        =~= seq![(key, index_value_of(value, offset))]);
}

/// Two index files that parse, one after the other, parse to their entries one
/// after the other.
proof fn lemma_parse_concat(a: Seq<u8>, c: Seq<u8>)
    requires
        parse_index(a) is Some,
        parse_index(c) is Some,
    ensures
        parse_index(a + c) == Some(parse_index(a)->0 + parse_index(c)->0),
    decreases a.len(),
{
    let ac = a + c;
    if a.len() == 0 {
        assert(ac =~= c);
        assert(parse_index(a)->0 + parse_index(c)->0 =~= parse_index(c)->0);
    } else {
        assert(be64_value(ac) == be64_value(a));
        let t = 8 + be64_value(a) as int;
        assert(ac[t] == a[t]);
        assert(ac.subrange(8, t) =~= a.subrange(8, t));
        let rest_start = if a[t] == TAG_VALUE { t + 9 } else { t + 1 };
        let ar = a.subrange(rest_start, a.len() as int);
        assert(ac.subrange(rest_start, ac.len() as int) =~= ar + c);
        if a[t] == TAG_VALUE {
            assert(ac.subrange(t + 1, t + 9) =~= a.subrange(t + 1, t + 9));
        }
        lemma_parse_concat(ar, c);
        let h = parse_index(a)->0[0];
        assert(parse_index(a)->0 =~= seq![h] + parse_index(ar)->0);
        assert(seq![h] + (parse_index(ar)->0 + parse_index(c)->0) =~= parse_index(a)->0
            + parse_index(c)->0);
    }
}

/// Keys and the data written before each present value fit the eight-byte
/// length and offset fields.
pub open spec fn fits_format(e: Seq<(Seq<u8>, Option<Seq<u8>>)>) -> bool {
    &&& gen_data(e).len() <= u64::MAX
    &&& forall|i: int| 0 <= i < e.len() ==> (#[trigger] e[i]).0.len() <= u64::MAX
}

/// The data of a prefix of the entries is a prefix of the data of all.
proof fn lemma_gen_data_prefix(e: Seq<(Seq<u8>, Option<Seq<u8>>)>, j: int)
    requires
        0 <= j <= e.len(),
    ensures
        gen_data(e.take(j)).len() <= gen_data(e).len(),
        gen_data(e).subrange(0, gen_data(e.take(j)).len() as int) == gen_data(e.take(j)),
    decreases e.len(),
{
    if j == e.len() {
        assert(e.take(j) =~= e);
        assert(gen_data(e).subrange(0, gen_data(e).len() as int) =~= gen_data(e));
    } else {
        lemma_gen_data_prefix(e.drop_last(), j);
        assert(e.drop_last().take(j) =~= e.take(j));
        let p = gen_data(e.take(j));
        assert(gen_data(e).subrange(0, p.len() as int) =~= gen_data(e.drop_last()).subrange(
            0,
            p.len() as int,
        ));
    }
}

/// The index entries of a generation extend those of its prefix by the last one.
proof fn lemma_index_model_push(e: Seq<(Seq<u8>, Option<Seq<u8>>)>)
    requires
        e.len() > 0,
    ensures
        index_model(e) == index_model(e.drop_last()) + seq![
            (e.last().0, index_value_of(e.last().1, gen_data(e.drop_last()).len() as u64)),
        ],
{
    let p = e.drop_last();
    assert(e.take(e.len() - 1) =~= p);
    assert forall|i: int| 0 <= i < p.len() implies e.take(i) == #[trigger] p.take(i) by {
        assert(e.take(i) =~= p.take(i));
    }
    assert(index_model(e) =~= index_model(p) + seq![
        (e.last().0, index_value_of(e.last().1, gen_data(p).len() as u64)),
    ]);
}

/// The index of a generation parses to the entries it was written from, each
/// with the offset of its record.
proof fn lemma_parse_gen_index(e: Seq<(Seq<u8>, Option<Seq<u8>>)>)
    requires
        forall|i: int| 0 <= i < e.len() ==> (#[trigger] e[i]).0.len() <= u64::MAX,
    ensures
        parse_index(gen_index(e)) == Some(index_model(e)),
    decreases e.len(),
{
    if e.len() == 0 {
        assert(index_model(e) =~= Seq::<(Seq<u8>, IndexValue)>::empty());
    } else {
        let p = e.drop_last();
        assert forall|i: int| 0 <= i < p.len() implies (#[trigger] p[i]).0.len() <= u64::MAX by {
            assert(p[i] == e[i]);
        }
        lemma_parse_gen_index(p);
        let last = e.last();
        assert(last == e[e.len() - 1]);
        let entry = index_entry(last.0, last.1, gen_data(p).len() as u64);
        assert(gen_index(e) == gen_index(p) + entry);
        lemma_parse_one_entry(last.0, last.1, gen_data(p).len() as u64);
        lemma_parse_concat(gen_index(p), entry);
        lemma_index_model_push(e);
    }
}

/// The record of each present value is found at the offset that the index
/// records for it.
proof fn lemma_gen_data_record(e: Seq<(Seq<u8>, Option<Seq<u8>>)>, i: int)
    requires
        fits_format(e),
        0 <= i < e.len(),
        e[i].1 is Some,
    ensures
        record_at(gen_data(e), gen_data(e.take(i)).len() as int) == e[i].1,
{
    let v = e[i].1->0;
    let d = gen_data(e);
    let before = gen_data(e.take(i));
    let upto = gen_data(e.take(i + 1));
    lemma_gen_data_prefix(e, i + 1);
    assert(e.take(i + 1).drop_last() =~= e.take(i));
    assert(upto == before + length_prefixed(v));
    let off = before.len() as int;
    assert(v.len() <= d.len());
    lemma_be64_round_trip(v.len() as u64);
    assert(d.subrange(off, off + 8) =~= be64(v.len() as u64)) by {
        assert(d.subrange(off, off + 8) =~= upto.subrange(off, off + 8));
    }
    assert(d.subrange(off + 8, off + 8 + v.len()) =~= v) by {
        assert(d.subrange(off + 8, off + 8 + v.len()) =~= upto.subrange(off + 8, off + 8 + v.len()));
    }
}

/// Index round trip: writing entries with distinct keys as a generation and
/// reading each key back through the parsed index and the data file gives the
/// value it was written with.
pub proof fn lemma_generation_round_trip(e: Seq<(Seq<u8>, Option<Seq<u8>>)>)
    requires
        keys_unique(e),
        fits_format(e),
    ensures
        parse_index(gen_index(e)) is Some,
        forall|i: int|
            0 <= i < e.len() ==> read_spec(
                entries_map(parse_index(gen_index(e))->0),
                (#[trigger] e[i]).0,
                gen_data(e),
            ) == Some(Some(e[i].1)),
{
    lemma_parse_gen_index(e);
    let m = index_model(e);
    assert forall|i: int|
        0 <= i < e.len() implies read_spec(
        entries_map(parse_index(gen_index(e))->0),
        (#[trigger] e[i]).0,
        gen_data(e),
    ) == Some(Some(e[i].1)) by {
        let k = e[i].0;
        assert forall|j: int| i + 1 <= j < m.len() implies m[j].0 != k by {
            assert(e[j].0 != e[i].0);
        }
        lemma_entries_map_skip(m, i + 1, k);
        assert(m.take(i + 1).drop_last() =~= m.take(i));
        assert(entries_map(m)[k] == m[i].1);
        lemma_gen_data_prefix(e, i);
        if e[i].1 is Some {
            lemma_gen_data_record(e, i);
        }
    }
}

/// A key is in the map of a sequence of entries exactly when some entry has it.
proof fn lemma_entries_map_keys<T>(s: Seq<(Seq<u8>, T)>, k: Seq<u8>)
    ensures
        entries_map(s).dom().contains(k) <==> exists|i: int| 0 <= i < s.len() && s[i].0 == k,
    decreases s.len(),
{
    if s.len() > 0 {
        lemma_entries_map_keys(s.drop_last(), k);
        if entries_map(s.drop_last()).dom().contains(k) {
            let i = choose|i: int| 0 <= i < s.drop_last().len() && s.drop_last()[i].0 == k;
            assert(s[i].0 == k);
        }
        if exists|i: int| 0 <= i < s.len() && s[i].0 == k {
            let i = choose|i: int| 0 <= i < s.len() && s[i].0 == k;
            if i < s.len() - 1 {
                assert(s.drop_last()[i].0 == k);
            }
        }
    }
}

/// A generation written from entries with distinct keys answers every key, read
/// through its parsed index and data file, as the map of the entries does:
/// `Some(Some(v))` for a key the entries map to `v`, `Some(None)` for any other.
pub proof fn lemma_generation_reads_back(e: Seq<(Seq<u8>, Option<Seq<u8>>)>, k: Seq<u8>)
    requires
        keys_unique(e),
        fits_format(e),
    ensures
        parse_index(gen_index(e)) is Some,
        read_spec(entries_map(parse_index(gen_index(e))->0), k, gen_data(e)) == if entries_map(
            e,
        ).dom().contains(k) {
            Some(Some(entries_map(e)[k]))
        } else {
            Some(None::<Option<Seq<u8>>>)
        },
{
    lemma_generation_round_trip(e);
    lemma_parse_gen_index(e);
    let m = index_model(e);
    lemma_entries_map_keys(e, k);
    lemma_entries_map_keys(m, k);
    if entries_map(e).dom().contains(k) {
        let i = choose|i: int| 0 <= i < e.len() && e[i].0 == k;
        assert forall|j: int| i + 1 <= j < e.len() implies e[j].0 != k by {}
        lemma_entries_map_skip(e, i + 1, k);
        assert(e.take(i + 1).drop_last() =~= e.take(i));
        assert(e.take(i + 1).last() == e[i]);
        assert(read_spec(entries_map(parse_index(gen_index(e))->0), e[i].0, gen_data(e)) == Some(
            Some(e[i].1),
        ));
    } else {
        assert forall|i: int| 0 <= i < m.len() implies m[i].0 != k by {
            assert(m[i].0 == e[i].0);
        }
    }
}

/// A reader of one generation: its whole index, loaded in memory.
pub struct Table {
    db_name: String,
    file_no: u64,
    index: Vec<(Vec<u8>, IndexValue)>,
}

impl View for Table {
    /// Each key of the index mapped to what the index records for it.
    type V = Map<Seq<u8>, IndexValue>;

    closed spec fn view(&self) -> Map<Seq<u8>, IndexValue> {
        entries_map(index_view(self.index@))
    }
}

impl Table {
    /// Id of the generation.
    pub closed spec fn spec_file_no(&self) -> u64 {
        self.file_no
    }

    /// Directory of the generation.
    pub closed spec fn spec_db_name(&self) -> Seq<char> {
        self.db_name@
    }

    /// A reader of generation `file_no` from the bytes of its index file; a
    /// corruption error where they do not parse. A key recorded twice maps to
    /// its last entry.
    pub fn open(db_name: &str, file_no: u64, index_buf: &[u8]) -> (r: Result<Table>)
        ensures
            r is Ok <==> parse_index(index_buf@) is Some,
            r matches Ok(t) ==> t@ == entries_map(parse_index(index_buf@)->0) && t.spec_file_no()
                == file_no && t.spec_db_name() == db_name@,
            r is Err ==> r matches Err(Error::DBCorruptionError),
    {
        let n = index_buf.len();
        let mut index: Vec<(Vec<u8>, IndexValue)> = Vec::new();
        let mut i: usize = 0;
        proof {
            assert(index_buf@.subrange(0, n as int) =~= index_buf@);
            assert(index_view(index@) =~= Seq::empty());
            if let Some(all) = parse_index(index_buf@) {
                assert(index_view(index@) + all =~= all);
            }
        }
        while i < n
            invariant
                n == index_buf@.len(),
                i <= n,
                parse_index(index_buf@) == prefixed(
                    index_view(index@),
                    parse_index(index_buf@.subrange(i as int, n as int)),
                ),
            decreases n - i,
        {
            let ghost rest = index_buf@.subrange(i as int, n as int);
            if n - i < 8 {
                return Err(Error::DBCorruptionError);
            }
            let key_size = u64_from_be(&index_buf[i..i + 8]);
            assert(key_size == be64_value(rest));
            if key_size >= (n - i - 8) as u64 {
                return Err(Error::DBCorruptionError);
            }
            let t: usize = i + 8 + key_size as usize;
            let key = copy_bytes(&index_buf[i + 8..t]);
            assert(key@ == rest.subrange(8, t - i));
            let tag = index_buf[t];
            let ghost before = index@;
            if tag == TAG_VALUE {
                if n - t < 9 {
                    return Err(Error::DBCorruptionError);
                }
                let offset = u64_from_be(&index_buf[t + 1..t + 9]);
                assert(index_buf@.subrange(t + 1, t + 9) =~= rest.subrange(t - i + 1, t - i + 9));
                index.push((key, IndexValue::Offset(offset)));
                i = t + 9;
            } else if tag == TAG_DELETE {
                index.push((key, IndexValue::Delete));
                i = t + 1;
            } else {
                return Err(Error::DBCorruptionError);
            }
            assert(rest.subrange((i - (n - rest.len())) as int, rest.len() as int) =~= index_buf@.subrange(
                i as int,
                n as int,
            ));
            assert(index_view(index@) =~= index_view(before) + seq![index_view(index@).last()]);
        }
        assert(index_buf@.subrange(n as int, n as int) =~= Seq::<u8>::empty());
        assert(index_view(index@) + Seq::<(Seq<u8>, IndexValue)>::empty() =~= index_view(index@));
        Ok(Table { db_name: db_name.to_string(), file_no, index })
    }

    /// What the index records for the key, if anything.
    pub fn get(&self, key: &[u8]) -> (r: Option<IndexValue>)
        ensures
            r is Some == self@.dom().contains(key@),
            r matches Some(v) ==> v == self@[key@],
    {
        let ghost s = index_view(self.index@);
        let mut i: usize = self.index.len();
        while i > 0
            invariant
                i <= self.index@.len(),
                s == index_view(self.index@),
                forall|j: int| i <= j < s.len() ==> s[j].0 != key@,
            decreases i,
        {
            if bytes_equal(self.index[i - 1].0.as_slice(), key) {
                proof {
                    lemma_entries_map_skip(s, i as int, key@);
                    assert(s.take(i as int).drop_last() =~= s.take(i - 1));
                }
                return Some(self.index[i - 1].1);
            }
            i = i - 1;
        }
        proof {
            lemma_entries_map_skip(s, 0, key@);
        }
        None
    }

    /// The value of the record that starts at `offset` in the bytes of a data
    /// file; an I/O error, as of a read that ends early, where the bytes end
    /// before the record does.
    pub fn decode(data: &[u8], offset: u64) -> (r: Result<Vec<u8>>)
        ensures
            r is Ok <==> record_at(data@, offset as int) is Some,
            r matches Ok(v) ==> v@ == record_at(data@, offset as int)->0,
            r is Err ==> r matches Err(Error::IOError(_)),
    {
        let n = data.len();
        if offset > n as u64 || n as u64 - offset < 8 {
            return Err(Error::IOError(unexpected_eof()));
        }
        let start = offset as usize;
        let size = u64_from_be(&data[start..start + 8]);
        if size > (n - start - 8) as u64 {
            return Err(Error::IOError(unexpected_eof()));
        }
        let end: usize = start + 8 + size as usize;
        Ok(copy_bytes(&data[start + 8..end]))
    }

    /// The value that the index and data file record for the key: `None` where
    /// the key is absent, a tombstone where it was deleted, and otherwise the
    /// record at the recorded offset.
    pub fn read(&self, key: &[u8], data: &[u8]) -> (r: Result<Option<MemValue>>)
        ensures
            r is Ok <==> read_spec(self@, key@, data@) is Some,
            r matches Ok(x) ==> found_view(x) == read_spec(self@, key@, data@)->0,
            r is Err ==> r matches Err(Error::IOError(_)),
    {
        match self.get(key) {
            None => Ok(None),
            Some(IndexValue::Delete) => Ok(Some(MemValue::Delete)),
            Some(IndexValue::Offset(o)) => {
                let v = Table::decode(data, o)?;
                Ok(Some(MemValue::Value(v)))
            },
        }
    }

    /// Id of the generation.
    pub fn file_no(&self) -> (r: u64)
        ensures
            r == self.spec_file_no(),
    {
        self.file_no
    }

    /// Directory of the generation.
    pub fn db_name(&self) -> (r: &str)
        ensures
            r@ == self.spec_db_name(),
    {
        self.db_name.as_str()
    }
}

/// Whether two byte strings are equal.
pub fn bytes_equal(a: &[u8], b: &[u8]) -> (r: bool)
    ensures
        r == (a@ == b@),
{
    if a.len() != b.len() {
        return false;
    }
    let mut i: usize = 0;
    while i < a.len()
        invariant
            a@.len() == b@.len(),
            i <= a@.len(),
            a@.subrange(0, i as int) == b@.subrange(0, i as int),
        decreases a@.len() - i,
    {
        if a[i] != b[i] {
            assert(a@[i as int] != b@[i as int]);
            return false;
        }
        assert(a@.subrange(0, i + 1) =~= a@.subrange(0, i as int).push(a@[i as int]));
        assert(b@.subrange(0, i + 1) =~= b@.subrange(0, i as int).push(b@[i as int]));
        i = i + 1;
    }
    assert(a@ =~= a@.subrange(0, a@.len() as int));
    assert(b@ =~= b@.subrange(0, b@.len() as int));
    true
}

} // verus!
