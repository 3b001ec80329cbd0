use crate::memtable::{
    empty_map, entries_map, entries_view, keys_unique, saturating_sum, MemTable, MemValue,
};
use crate::errors::{Error, Result};
use crate::params::DBParams;
use crate::table::{
    be64, be64_value, decode_metadata, encode_u64, fits_format, lemma_generation_reads_back,
    parse_index, read_spec, gen_data, gen_index, lemma_be64_round_trip, FlushedTable,
    TableBuilder,
};
use vstd::prelude::*;

verus! {

/// One layer of the store: keys mapped to `Some(value)` or to `None` for a tombstone.
pub type Layer = Map<Seq<u8>, Option<Seq<u8>>>;

/// The first entry for `k` found when searching the layers from the last
/// (newest) to the first (oldest): `Some(Some(v))` for a value, `Some(None)` for
/// a tombstone, `None` where no layer holds `k`.
pub open spec fn lookup_layers(layers: Seq<Layer>, k: Seq<u8>) -> Option<Option<Seq<u8>>>
    decreases layers.len(),
{
    if layers.len() == 0 {
        None
    } else if layers.last().dom().contains(k) {
        Some(layers.last()[k])
    } else {
        lookup_layers(layers.drop_last(), k)
    }
}

/// What a read of `k` returns from the layers: the newest value, or `None`
/// where the newest entry is a tombstone or there is none.
pub open spec fn read_layers(layers: Seq<Layer>, k: Seq<u8>) -> Option<Seq<u8>> {
    match lookup_layers(layers, k) {
        Some(v) => v,
        None => None,
    }
}

/// The layers after writing `v` (a value, or `None` for a tombstone) for `k`
/// into the newest layer.
pub open spec fn write_top(layers: Seq<Layer>, k: Seq<u8>, v: Option<Seq<u8>>) -> Seq<Layer> {
    layers.update(layers.len() - 1, layers.last().insert(k, v))
}

/// The outcome of an attempt to freeze the in-memory buffer.
#[derive(Debug, PartialEq, Eq, Structural)]
pub enum FreezeOutcome {
    /// The buffer moved into the hand-off slot and a fresh one replaced it.
    Frozen,
    /// The buffer is empty: there is nothing to freeze.
    Empty,
    /// The hand-off slot still holds the previous buffer: wait until it drains.
    Busy,
}

/// The work of one flush: the generation's two files and the new contents of
/// the metadata file.
pub struct FlushJob {
    pub table: FlushedTable,
    pub metadata: Vec<u8>,
}

/// The write path and flush hand-off of a store, as one state machine: the
/// in-memory buffer, the single hand-off slot, the writer of generations and
/// the count of generations that readers see.
pub struct Engine {
    mem_table: MemTable,
    flush_table: Option<MemTable>,
    files: u64,
    write_buffer_size: usize,
    builder: TableBuilder,
    built: bool,
    opened_with: u64,
    gens: Ghost<Seq<Layer>>,
    written: Ghost<Seq<u64>>,
}

impl Engine {
    /// Internal consistency: the writer builds the next generation's id, and
    /// one built generation is pending only while the slot is full.
    pub closed spec fn wf(&self) -> bool {
        &&& self.builder.wf()
        &&& self.builder.index_bytes() == Seq::<u8>::empty()
        &&& self.builder.data_bytes() == Seq::<u8>::empty()
        &&& self.builder.spec_file_no() == self.files + if self.built { 1int } else { 0int }
        &&& self.built ==> self.flush_table is Some
        &&& self.gens@.len() == self.files
        &&& self.opened_with <= self.files
        &&& self.written@ == Seq::new(
            (self.files - self.opened_with) as nat,
            |i: int| (self.opened_with + i) as u64,
        )
    }

    /// Ids of the generations written since the store was opened, in order.
    pub closed spec fn written_ids(&self) -> Seq<u64> {
        self.written@
    }

    /// The generations that readers see, oldest first.
    pub closed spec fn generations(&self) -> Seq<Layer> {
        self.gens@
    }

    /// The buffered layers: the hand-off slot if full, then the in-memory buffer.
    pub closed spec fn buffers(&self) -> Seq<Layer> {
        match self.flush_table {
            Some(t) => seq![t@, self.mem_table@],
            None => seq![self.mem_table@],
        }
    }

    /// All layers, oldest first: the generations, the hand-off slot, the buffer.
    pub open spec fn layers(&self) -> Seq<Layer> {
        self.generations() + self.buffers()
    }

    /// Number of generations that readers see.
    pub closed spec fn spec_files(&self) -> u64 {
        self.files
    }

    /// Number of generations present when the store was opened.
    pub closed spec fn spec_opened_with(&self) -> u64 {
        self.opened_with
    }

    /// Whether the hand-off slot holds a frozen buffer.
    pub closed spec fn slot_full(&self) -> bool {
        self.flush_table is Some
    }

    /// Whether the in-memory buffer is empty.
    pub closed spec fn mem_empty(&self) -> bool {
        self.mem_table@ == empty_map()
    }

    /// Whether the in-memory buffer has reached the freeze threshold.
    pub closed spec fn spec_needs_freeze(&self) -> bool {
        self.mem_size() >= self.spec_write_buffer_size()
    }

    /// The size estimate of the in-memory buffer, in bytes.
    pub closed spec fn mem_size(&self) -> nat {
        self.mem_table.spec_size()
    }

    /// The size estimate at which the buffer is to be frozen.
    pub closed spec fn spec_write_buffer_size(&self) -> nat {
        self.write_buffer_size as nat
    }

    /// Whether the generation of the frozen buffer has been built and waits to
    /// be marked as written.
    pub closed spec fn pending(&self) -> bool {
        self.built
    }

    /// A store whose directory holds `files` generations, with an empty buffer
    /// and an empty hand-off slot.
    pub fn new(db_name: &str, files: u64, params: &DBParams) -> (e: Engine)
        ensures
            e.wf(),
            e.spec_files() == files,
            e.spec_opened_with() == files,
            e.generations().len() == files,
            e.written_ids() == Seq::<u64>::empty(),
            e.buffers() == seq![empty_map()],
            !e.slot_full(),
            !e.pending(),
            e.mem_size() == 0,
            e.spec_write_buffer_size() == params.write_buffer_size,
    {
        let e = Engine {
            mem_table: MemTable::new(),
            flush_table: None,
            files,
            write_buffer_size: params.write_buffer_size,
            builder: TableBuilder::new(db_name, files),
            built: false,
            opened_with: files,
            gens: Ghost(Seq::new(files as nat, |i: int| empty_map())),
            written: Ghost(Seq::empty()),
        };
        assert(e.written@ =~= Seq::new(
            (e.files - e.opened_with) as nat,
            |i: int| (e.opened_with + i) as u64,
        ));
        e
    }

    /// Writes the value for the key into the in-memory buffer.
    pub fn put(&mut self, key: &[u8], value: &[u8])
        requires
            old(self).wf(),
        ensures
            final(self).wf(),
            final(self).layers() == write_top(old(self).layers(), key@, Some(value@)),
            final(self).generations() == old(self).generations(),
            final(self).spec_files() == old(self).spec_files(),
            final(self).spec_opened_with() == old(self).spec_opened_with(),
            final(self).written_ids() == old(self).written_ids(),
            final(self).slot_full() == old(self).slot_full(),
            final(self).pending() == old(self).pending(),
            final(self).spec_write_buffer_size() == old(self).spec_write_buffer_size(),
            final(self).mem_size() == saturating_sum(
                old(self).mem_size() as int,
                (key@.len() + value@.len()) as int,
            ),
            !final(self).mem_empty(),
    {
        self.mem_table.put(key, value);
        proof {
            assert(self.buffers() =~= old(self).buffers().update(
                old(self).buffers().len() - 1,
                old(self).buffers().last().insert(key@, Some(value@)),
            ));
            assert(self.layers() =~= write_top(old(self).layers(), key@, Some(value@)));
            assert(self.mem_table@.dom().contains(key@));
        }
    }

    /// Writes a tombstone for the key into the in-memory buffer.
    pub fn delete(&mut self, key: &[u8])
        requires
            old(self).wf(),
        ensures
            final(self).wf(),
            final(self).layers() == write_top(old(self).layers(), key@, None),
            final(self).generations() == old(self).generations(),
            final(self).spec_files() == old(self).spec_files(),
            final(self).spec_opened_with() == old(self).spec_opened_with(),
            final(self).written_ids() == old(self).written_ids(),
            final(self).slot_full() == old(self).slot_full(),
            final(self).pending() == old(self).pending(),
            final(self).spec_write_buffer_size() == old(self).spec_write_buffer_size(),
            final(self).mem_size() == saturating_sum(old(self).mem_size() as int, key@.len() as int),
            !final(self).mem_empty(),
    {
        self.mem_table.delete(key);
        proof {
            assert(self.buffers() =~= old(self).buffers().update(
                old(self).buffers().len() - 1,
                old(self).buffers().last().insert(key@, None),
            ));
            assert(self.layers() =~= write_top(old(self).layers(), key@, None));
            assert(self.mem_table@.dom().contains(key@));
        }
    }

    /// Whether the buffer's size estimate has reached the freeze threshold.
    pub fn needs_freeze(&self) -> (r: bool)
        ensures
            r == self.spec_needs_freeze(),
    {
        self.mem_table.size() >= self.write_buffer_size
    }

    /// Moves a non-empty buffer into an empty hand-off slot and starts a fresh
    /// buffer. A full slot is left alone: at most one frozen buffer waits.
    pub fn freeze(&mut self) -> (r: FreezeOutcome)
        requires
            old(self).wf(),
        ensures
            final(self).wf(),
            final(self).generations() == old(self).generations(),
            final(self).spec_files() == old(self).spec_files(),
            final(self).spec_opened_with() == old(self).spec_opened_with(),
            final(self).written_ids() == old(self).written_ids(),
            old(self).mem_empty() ==> r == FreezeOutcome::Empty && *final(self) == *old(self),
            !old(self).mem_empty() && old(self).slot_full() ==> r == FreezeOutcome::Busy
                && *final(self) == *old(self),
            !old(self).mem_empty() && !old(self).slot_full() ==> {
                &&& r == FreezeOutcome::Frozen
                &&& final(self).slot_full()
                &&& final(self).mem_empty()
                &&& final(self).mem_size() == 0
                &&& !final(self).pending()
                &&& final(self).spec_write_buffer_size() == old(self).spec_write_buffer_size()
                &&& final(self).layers() == old(self).layers().push(empty_map())
            },
    {
        if self.mem_table.is_empty() {
            return FreezeOutcome::Empty;
        }
        if self.flush_table.is_some() {
            return FreezeOutcome::Busy;
        }
        let frozen = self.mem_table.clear();
        self.flush_table = Some(frozen);
        proof {
            assert(self.layers() =~= old(self).layers().push(empty_map()));
        }
        FreezeOutcome::Frozen
    }

    /// Whether the hand-off slot holds a frozen buffer.
    pub fn has_frozen(&self) -> (r: bool)
        ensures
            r == self.slot_full(),
    {
        self.flush_table.is_some()
    }

    /// Whether the in-memory buffer is empty.
    pub fn is_mem_empty(&self) -> (r: bool)
        ensures
            r == self.mem_empty(),
    {
        self.mem_table.is_empty()
    }

    /// Number of generations that readers see.
    pub fn files(&self) -> (r: u64)
        ensures
            r == self.spec_files(),
    {
        self.files
    }

    /// The entry for the key in the buffer or, failing that, in the hand-off
    /// slot: the buffered layers searched newest first.
    pub fn get_buffered(&self, key: &[u8]) -> (r: Option<MemValue>)
        ensures
            match r {
                Some(v) => lookup_layers(self.buffers(), key@) == Some(v@),
                None => lookup_layers(self.buffers(), key@) is None,
            },
    {
        let found = self.mem_table.get(key);
        if found.is_some() {
            return found;
        }
        match &self.flush_table {
            Some(t) => {
                let r = t.get(key);
                proof {
                    let b = self.buffers();
                    assert(b.last() == self.mem_table@);
                    assert(b.drop_last() =~= seq![t@]);
                    assert(seq![t@].last() == t@);
                    assert(seq![t@].drop_last() =~= Seq::<Layer>::empty());
                    assert(lookup_layers(b, key@) == lookup_layers(seq![t@], key@));
                    reveal_with_fuel(lookup_layers, 2);
                    assert(lookup_layers(Seq::<Layer>::empty(), key@) is None);
                }
                r
            },
            None => {
                proof {
                    assert(self.buffers().drop_last() =~= Seq::<Layer>::empty());
                }
                None
            },
        }
    }

    /// Builds the generation of the frozen buffer, if one waits and was not
    /// built yet: its index and data files, written with the next id, and the
    /// metadata that counts it. The buffer stays in the slot, visible to
    /// readers, until `complete_flush`.
    pub fn begin_flush(&mut self) -> (r: Option<FlushJob>)
        requires
            old(self).wf(),
        ensures
            final(self).wf(),
            final(self).layers() == old(self).layers(),
            final(self).generations() == old(self).generations(),
            final(self).spec_files() == old(self).spec_files(),
            final(self).spec_opened_with() == old(self).spec_opened_with(),
            final(self).written_ids() == old(self).written_ids(),
            final(self).slot_full() == old(self).slot_full(),
            final(self).mem_size() == old(self).mem_size(),
            final(self).spec_write_buffer_size() == old(self).spec_write_buffer_size(),
            old(self).slot_full() && !old(self).pending() && old(self).spec_files() < u64::MAX ==> r is Some,
            r is None ==> *final(self) == *old(self),
            r is Some ==> old(self).slot_full() && !old(self).pending() && final(self).pending(),
            r matches Some(job) ==> {
                &&& job.table.file_no == old(self).spec_files()
                &&& job.metadata@ == be64((old(self).spec_files() + 1) as u64)
                &&& exists|e: Seq<(Seq<u8>, Option<Seq<u8>>)>|
                    {
                        &&& keys_unique(e)
                        &&& entries_map(e) == old(self).buffers()[0]
                        &&& job.table.index@ == gen_index(e)
                        &&& job.table.data@ == gen_data(e)
                    }
            },
    {
        if self.built || self.files == u64::MAX {
            return None;
        }
        let entries = match &self.flush_table {
            Some(t) => t.entries(),
            None => {
                return None;
            },
        };
        let ghost e = entries_view(entries@);
        let mut i: usize = 0;
        while i < entries.len()
            invariant
                e == entries_view(entries@),
                i <= entries@.len(),
                self.builder.wf(),
                self.builder.spec_file_no() == old(self).builder.spec_file_no(),
                self.builder.spec_db_name() == old(self).builder.spec_db_name(),
                self.builder.index_bytes() == gen_index(e.take(i as int)),
                self.builder.data_bytes() == gen_data(e.take(i as int)),
                self.mem_table == old(self).mem_table,
                self.flush_table == old(self).flush_table,
                self.files == old(self).files,
                self.built == old(self).built,
                self.gens == old(self).gens,
                self.opened_with == old(self).opened_with,
                self.written == old(self).written,
                self.write_buffer_size == old(self).write_buffer_size,
            decreases entries@.len() - i,
        {
            proof {
                assert(e.take(i + 1).drop_last() =~= e.take(i as int));
                assert(e.take(i + 1).last() == e[i as int]);
            }
            self.builder.add(entries[i].0.as_slice(), &entries[i].1);
            i = i + 1;
        }
        proof {
            assert(e.take(e.len() as int) =~= e);
        }
        let table = self.builder.flush();
        self.built = true;
        let metadata = encode_u64(self.files + 1);
        Some(FlushJob { table, metadata })
    }

    /// Marks the pending generation as written: the hand-off slot empties and
    /// readers see one more generation, which holds what the slot held. Does
    /// nothing where no generation was built.
    pub fn complete_flush(&mut self) -> (r: bool)
        requires
            old(self).wf(),
        ensures
            final(self).wf(),
            final(self).layers() == old(self).layers(),
            final(self).spec_opened_with() == old(self).spec_opened_with(),
            r == old(self).pending(),
            !final(self).pending(),
            final(self).mem_size() == old(self).mem_size(),
            final(self).spec_write_buffer_size() == old(self).spec_write_buffer_size(),
            r ==> {
                &&& old(self).slot_full()
                &&& !final(self).slot_full()
                &&& final(self).spec_files() == old(self).spec_files() + 1
                &&& final(self).generations() == old(self).generations().push(
                    old(self).buffers()[0],
                )
                &&& final(self).written_ids() == old(self).written_ids().push(
                    old(self).spec_files(),
                )
            },
            !r ==> *final(self) == *old(self),
    {
        if !self.built {
            return false;
        }
        let taken = self.flush_table.take();
        proof {
            let t = taken->0;
            self.gens@ = self.gens@.push(t@);
            self.written@ = self.written@.push(self.files);
        }
        self.files = self.files + 1;
        self.built = false;
        proof {
            assert(self.layers() =~= old(self).layers());
            assert(self.written@ =~= Seq::new(
                (self.files - self.opened_with) as nat,
                |i: int| (self.opened_with + i) as u64,
            ));
        }
        true
    }
}

/// What opening a store on a path must do.
#[derive(Debug, PartialEq, Eq, Structural)]
pub enum OpenAction {
    /// Use the existing directory, which holds this many generations.
    Load(u64),
    /// Create the directory; it holds no generation yet.
    Create,
}

/// Decides how to open a store, from what the path holds: whether it exists,
/// whether it is a directory, and the bytes of its metadata file where that
/// could be read. A file, a directory without metadata, or a missing path
/// without `create_if_missing` is an invalid name; metadata shorter than eight
/// bytes is an I/O error, as a read that ends early is.
pub fn plan_open(exists: bool, is_dir: bool, metadata: Option<&[u8]>, create_if_missing: bool) -> (r:
    Result<OpenAction>)
    ensures
        exists && is_dir && metadata is Some && metadata->0@.len() >= 8 ==> r == Ok::<
            OpenAction,
            Error,
        >(OpenAction::Load(be64_value(metadata->0@))),
        exists && is_dir && metadata is Some && metadata->0@.len() < 8 ==> r matches Err(
            Error::IOError(_),
        ),
        exists && is_dir && metadata is None ==> r matches Err(Error::DBNameInvalidError),
        exists && !is_dir ==> r matches Err(Error::DBNameInvalidError),
        !exists && create_if_missing ==> r == Ok::<OpenAction, Error>(OpenAction::Create),
        !exists && !create_if_missing ==> r matches Err(Error::DBNameInvalidError),
{
    if exists && is_dir {
        match metadata {
            Some(buf) => match decode_metadata(buf) {
                Ok(n) => Ok(OpenAction::Load(n)),
                Err(e) => Err(e),
            },
            None => Err(Error::DBNameInvalidError),
        }
    } else if exists {
        Err(Error::DBNameInvalidError)
    } else if create_if_missing {
        Ok(OpenAction::Create)
    } else {
        Err(Error::DBNameInvalidError)
    }
}

/// What one stage of a read decides: `Some(Some(bytes))` for a value, which is
/// the answer; `Some(None)` for a tombstone, whose answer is "no value"; and
/// `None` where the stage holds nothing for the key and the next, older stage
/// is to be searched.
pub fn resolve(found: Option<MemValue>) -> (r: Option<Option<Vec<u8>>>)
    ensures
        match found {
            Some(MemValue::Value(v)) => r matches Some(Some(b)) && b@ == v@,
            Some(MemValue::Delete) => r matches Some(None),
            None => r is None,
        },
{
    match found {
        Some(MemValue::Value(v)) => Some(Some(v)),
        Some(MemValue::Delete) => Some(None),
        None => None,
    }
}

/// The next move of a read: consult generation `id`, or stop with the answer.
#[derive(Debug, PartialEq, Eq)]
pub enum ReadStep {
    Consult(u64),
    Done(Option<Vec<u8>>),
}

/// The search of a read through the generations, newest first, once the
/// buffered layers held nothing for the key.
pub struct GenerationSearch {
    remaining: u64,
}

impl GenerationSearch {
    /// Number of generations not consulted yet: those with ids below it.
    pub closed spec fn spec_remaining(&self) -> u64 {
        self.remaining
    }

    /// A search over generations `0 .. files`.
    pub fn new(files: u64) -> (s: GenerationSearch)
        ensures
            s.spec_remaining() == files,
    {
        GenerationSearch { remaining: files }
    }

    /// The newest generation not consulted yet, or the end of the search with
    /// no value where none is left.
    pub fn first(&mut self) -> (r: ReadStep)
        ensures
            old(self).spec_remaining() == 0 ==> r == ReadStep::Done(None),
            old(self).spec_remaining() == 0 ==> final(self).spec_remaining() == 0,
            old(self).spec_remaining() > 0 ==> r == ReadStep::Consult(
                (old(self).spec_remaining() - 1) as u64,
            ),
            old(self).spec_remaining() > 0 ==> final(self).spec_remaining() == old(self).spec_remaining() - 1,
    {
        if self.remaining == 0 {
            ReadStep::Done(None)
        } else {
            self.remaining = self.remaining - 1;
            ReadStep::Consult(self.remaining)
        }
    }

    /// Takes what the consulted generation holds for the key: a value or a
    /// tombstone ends the search; nothing moves it to the next older generation.
    pub fn next(&mut self, found: Option<MemValue>) -> (r: ReadStep)
        ensures
            found matches Some(MemValue::Value(v)) ==> r matches ReadStep::Done(Some(b)) && b@ == v@,
            found matches Some(MemValue::Delete) ==> r == ReadStep::Done(None),
            found is Some ==> final(self).spec_remaining() == old(self).spec_remaining(),
            found is None && old(self).spec_remaining() == 0 ==> r == ReadStep::Done(None),
            found is None && old(self).spec_remaining() == 0 ==> final(self).spec_remaining() == 0,
            found is None && old(self).spec_remaining() > 0 ==> r == ReadStep::Consult(
                (old(self).spec_remaining() - 1) as u64,
            ),
            found is None && old(self).spec_remaining() > 0 ==> final(self).spec_remaining() == old(self).spec_remaining() - 1,
    {
        match resolve(found) {
            Some(answer) => ReadStep::Done(answer),
            None => self.first(),
        }
    }
}

/// Search order: among the first `n` layers, a read finds the entry of layer
/// `n - 1` where it holds the key, and otherwise searches the first `n - 1`.
pub proof fn lemma_search_step(layers: Seq<Layer>, n: int, k: Seq<u8>)
    requires
        0 < n <= layers.len(),
    ensures
        lookup_layers(layers.take(n), k) == if layers[n - 1].dom().contains(k) {
            Some(layers[n - 1][k])
        } else {
            lookup_layers(layers.take(n - 1), k)
        },
{
    assert(layers.take(n).drop_last() =~= layers.take(n - 1));
    assert(layers.take(n).last() == layers[n - 1]);
}

/// A read searches the buffered layers first and falls back to the
/// generations only where they hold nothing for the key.
pub proof fn lemma_buffers_first(gens: Seq<Layer>, bufs: Seq<Layer>, k: Seq<u8>)
    ensures
        lookup_layers(gens + bufs, k) == match lookup_layers(bufs, k) {
            Some(v) => Some(v),
            None => lookup_layers(gens, k),
        },
    decreases bufs.len(),
{
    if bufs.len() == 0 {
        assert(gens + bufs =~= gens);
    } else {
        assert((gens + bufs).drop_last() =~= gens + bufs.drop_last());
        assert((gens + bufs).last() == bufs.last());
        lemma_buffers_first(gens, bufs.drop_last(), k);
    }
}

/// A change of the store's layers by one step of its write path.
pub enum StoreStep {
    /// A value (`Some`) or a tombstone (`None`) written for a key.
    Write(Seq<u8>, Option<Seq<u8>>),
    /// The buffer frozen into the hand-off slot and replaced by an empty one.
    Freeze,
    /// The frozen buffer written out as a generation, which leaves the layers as
    /// they were.
    Flush,
}

/// The layers after one step.
pub open spec fn apply_step(layers: Seq<Layer>, step: StoreStep) -> Seq<Layer> {
    match step {
        StoreStep::Write(k, v) => write_top(layers, k, v),
        StoreStep::Freeze => layers.push(empty_map()),
        StoreStep::Flush => layers,
    }
}

/// The layers after the steps, in order.
pub open spec fn apply_steps(layers: Seq<Layer>, steps: Seq<StoreStep>) -> Seq<Layer>
    decreases steps.len(),
{
    if steps.len() == 0 {
        layers
    } else {
        apply_steps(apply_step(layers, steps[0]), steps.drop_first())
    }
}

/// Whether the step writes key `k`.
pub open spec fn step_writes(step: StoreStep, k: Seq<u8>) -> bool {
    match step {
        StoreStep::Write(k2, _) => k2 == k,
        _ => false,
    }
}

/// Whether one of the steps writes key `k`.
pub open spec fn writes_key(steps: Seq<StoreStep>, k: Seq<u8>) -> bool {
    exists|i: int| 0 <= i < steps.len() && step_writes(#[trigger] steps[i], k)
}

/// Last write wins: once `v` is written for `k`, reads of `k` return it (a
/// value, or nothing for a tombstone) through any later steps that do not write `k`.
pub proof fn lemma_last_write_wins(
    layers: Seq<Layer>,
    k: Seq<u8>,
    v: Option<Seq<u8>>,
    steps: Seq<StoreStep>,
)
    requires
        layers.len() > 0,
        !writes_key(steps, k),
    ensures
        lookup_layers(apply_steps(write_top(layers, k, v), steps), k) == Some(v),
        read_layers(apply_steps(write_top(layers, k, v), steps), k) == v,
{
    let l1 = write_top(layers, k, v);
    assert(l1.last() == layers.last().insert(k, v));
    lemma_steps_keep_entry(l1, k, steps);
}

/// Steps that do not write `k` keep what a read of `k` finds, where the layers
/// are not empty.
proof fn lemma_steps_keep_entry(layers: Seq<Layer>, k: Seq<u8>, steps: Seq<StoreStep>)
    requires
        layers.len() > 0,
        !writes_key(steps, k),
    ensures
        lookup_layers(apply_steps(layers, steps), k) == lookup_layers(layers, k),
        apply_steps(layers, steps).len() > 0,
    decreases steps.len(),
{
    if steps.len() > 0 {
        let next = apply_step(layers, steps[0]);
        match steps[0] {
            StoreStep::Write(k2, v2) => {
                assert(!step_writes(steps[0], k));
                assert(next.drop_last() =~= layers.drop_last());
                assert(next.last() == layers.last().insert(k2, v2));
            },
            StoreStep::Freeze => {
                assert(next.drop_last() =~= layers);
            },
            StoreStep::Flush => {},
        }
        assert forall|i: int| 0 <= i < steps.drop_first().len() implies !step_writes(
            #[trigger] steps.drop_first()[i],
            k,
        ) by {
            assert(steps.drop_first()[i] == steps[i + 1]);
        }
        lemma_steps_keep_entry(next, k, steps.drop_first());
    }
}

/// Read-your-writes: after `put(k, v)`, reads of `k` return `v` until `k` is
/// written again, whatever freezes and flushes come between.
pub proof fn lemma_read_your_writes(layers: Seq<Layer>, k: Seq<u8>, v: Seq<u8>, steps: Seq<StoreStep>)
    requires
        layers.len() > 0,
        !writes_key(steps, k),
    ensures
        read_layers(apply_steps(write_top(layers, k, Some(v)), steps), k) == Some(v),
{
    lemma_last_write_wins(layers, k, Some(v), steps);
}

/// Delete shadowing: after `delete(k)`, reads of `k` return nothing until `k`
/// is written again, however many values older layers hold for it.
pub proof fn lemma_delete_shadows(layers: Seq<Layer>, k: Seq<u8>, steps: Seq<StoreStep>)
    requires
        layers.len() > 0,
        !writes_key(steps, k),
    ensures
        read_layers(apply_steps(write_top(layers, k, None), steps), k) is None,
{
    lemma_last_write_wins(layers, k, None, steps);
}

/// Durability across close and open: once the buffer and the hand-off slot
/// are drained, every read is answered by the generations alone, which is all
/// that a store opened again on the directory reads.
pub proof fn lemma_drained_reads_generations(e: &Engine, k: Seq<u8>)
    requires
        e.wf(),
        e.mem_empty(),
        !e.slot_full(),
    ensures
        e.layers() == e.generations().push(empty_map()),
        read_layers(e.layers(), k) == read_layers(e.generations(), k),
{
    assert(e.layers() =~= e.generations().push(empty_map()));
    assert(e.generations().push(empty_map()).drop_last() =~= e.generations());
}

/// What a store opened on a directory reads for `k` from generations written
/// from the entry sequences `es` (oldest first): each generation's index is
/// parsed and its answer read from its data file, newest first, until one
/// holds the key.
pub open spec fn disk_lookup(es: Seq<Seq<(Seq<u8>, Option<Seq<u8>>)>>, k: Seq<u8>) -> Option<
    Option<Seq<u8>>,
>
    decreases es.len(),
{
    if es.len() == 0 {
        None
    } else {
        match parse_index(gen_index(es.last())) {
            Some(index) => match read_spec(entries_map(index), k, gen_data(es.last())) {
                Some(Some(v)) => Some(v),
                _ => disk_lookup(es.drop_last(), k),
            },
            None => disk_lookup(es.drop_last(), k),
        }
    }
}

/// Durability across close and open: generations written from entry sequences
/// with distinct keys answer a read, searched newest first through their files,
/// exactly as the layers they were written from. With the drained layers of a
/// closed store being its generations, a store opened again reads what was
/// last written before close.
pub proof fn lemma_reopen_reads(es: Seq<Seq<(Seq<u8>, Option<Seq<u8>>)>>, k: Seq<u8>)
    requires
        forall|i: int| 0 <= i < es.len() ==> keys_unique(#[trigger] es[i]) && fits_format(es[i]),
    ensures
        disk_lookup(es, k) == lookup_layers(
            es.map_values(|e: Seq<(Seq<u8>, Option<Seq<u8>>)>| entries_map(e)),
            k,
        ),
    decreases es.len(),
{
    let layers = es.map_values(|e: Seq<(Seq<u8>, Option<Seq<u8>>)>| entries_map(e));
    if es.len() > 0 {
        let p = es.drop_last();
        assert forall|i: int| 0 <= i < p.len() implies keys_unique(#[trigger] p[i]) && fits_format(
            p[i],
        ) by {
            assert(p[i] == es[i]);
        }
        lemma_reopen_reads(p, k);
        assert(layers.drop_last() =~= p.map_values(
            |e: Seq<(Seq<u8>, Option<Seq<u8>>)>| entries_map(e),
        ));
        assert(es.last() == es[es.len() - 1]);
        lemma_generation_reads_back(es.last(), k);
    }
}

/// Metadata consistency: the metadata written with a flush decodes to the
/// number of generations that readers see once the flush completes.
pub proof fn lemma_metadata_counts_generations(before: &Engine, job: &FlushJob, after: &Engine)
    requires
        job.metadata@ == be64((before.spec_files() + 1) as u64),
        after.spec_files() == before.spec_files() + 1,
    ensures
        job.metadata@.len() == 8,
        be64_value(job.metadata@) == after.spec_files(),
{
    lemma_be64_round_trip((before.spec_files() + 1) as u64);
}

/// Generation id contiguity: a store opened on a fresh directory has written
/// exactly the generations `0 .. n`, where `n` is the count that readers see.
pub proof fn lemma_generation_ids_contiguous(e: &Engine)
    requires
        e.wf(),
        e.spec_opened_with() == 0,
    ensures
        e.written_ids() == Seq::new(e.spec_files() as nat, |i: int| i as u64),
        e.generations().len() == e.spec_files(),
{
    assert(e.written_ids() =~= Seq::new(e.spec_files() as nat, |i: int| i as u64));
}

} // verus!
