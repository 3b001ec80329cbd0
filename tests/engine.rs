use logkv::engine::{plan_open, resolve, FreezeOutcome, GenerationSearch, OpenAction, ReadStep};
use logkv::table::decode_metadata;
use logkv::{DBParams, Engine, Error, MemValue, Table};

/// The files of a store, kept in memory.
struct Disk {
    gens: Vec<(Vec<u8>, Vec<u8>)>,
    metadata: Vec<u8>,
}

fn params(write_buffer_size: usize) -> DBParams {
    let mut p = DBParams::new();
    p.write_buffer_size = write_buffer_size;
    p
}

/// Runs one flush to completion, as the background worker does.
fn flush(engine: &mut Engine, disk: &mut Disk) {
    if let Some(job) = engine.begin_flush() {
        assert_eq!(job.table.file_no as usize, disk.gens.len());
        disk.gens.push((job.table.index, job.table.data));
        disk.metadata = job.metadata;
        assert!(engine.complete_flush());
    }
}

fn freeze(engine: &mut Engine, disk: &mut Disk) {
    loop {
        match engine.freeze() {
            FreezeOutcome::Busy => flush(engine, disk),
            _ => break,
        }
    }
}

fn put(engine: &mut Engine, disk: &mut Disk, k: &[u8], v: &[u8]) {
    engine.put(k, v);
    if engine.needs_freeze() {
        freeze(engine, disk);
    }
}

fn delete(engine: &mut Engine, disk: &mut Disk, k: &[u8]) {
    engine.delete(k);
    if engine.needs_freeze() {
        freeze(engine, disk);
    }
}

fn get(engine: &Engine, disk: &Disk, k: &[u8]) -> Option<Vec<u8>> {
    if let Some(r) = resolve(engine.get_buffered(k)) {
        return r;
    }
    let mut search = GenerationSearch::new(engine.files());
    let mut step = search.first();
    loop {
        match step {
            ReadStep::Done(answer) => return answer,
            ReadStep::Consult(id) => {
                let (index, data) = &disk.gens[id as usize];
                let t = Table::open("dir", id, index).unwrap();
                step = search.next(t.read(k, data).unwrap());
            }
        }
    }
}

fn close(engine: &mut Engine, disk: &mut Disk) {
    freeze(engine, disk);
    flush(engine, disk);
}

fn reopen(disk: &Disk, p: &DBParams) -> Engine {
    let n = decode_metadata(&disk.metadata).unwrap();
    Engine::new("dir", n, p)
}

fn fresh() -> Disk {
    Disk { gens: vec![], metadata: vec![] }
}

#[test]
fn scenario_put_then_get() {
    let p = DBParams::new();
    let mut disk = fresh();
    let mut e = Engine::new("dir", 0, &p);
    put(&mut e, &mut disk, b"hello", b"world");
    put(&mut e, &mut disk, b"lorem", b"ipsum");
    assert_eq!(get(&e, &disk, b"hello"), Some(b"world".to_vec()));
    assert_eq!(get(&e, &disk, b"lorem"), Some(b"ipsum".to_vec()));
    assert_eq!(get(&e, &disk, b"paris"), None);
}

#[test]
fn scenario_small_buffer_many_generations() {
    let p = params(8);
    let mut disk = fresh();
    let mut e = Engine::new("dir", 0, &p);
    for i in 0..100 {
        put(&mut e, &mut disk, i.to_string().as_bytes(), i.to_string().as_bytes());
    }
    for i in 0..100 {
        assert_eq!(get(&e, &disk, i.to_string().as_bytes()), Some(i.to_string().into_bytes()));
    }
    close(&mut e, &mut disk);
    let n = decode_metadata(&disk.metadata).unwrap();
    assert!(n >= 1);
    assert_eq!(n as usize, disk.gens.len());
    assert_eq!(e.files(), n);
}

#[test]
fn scenario_delete_then_reopen() {
    let p = DBParams::new();
    let mut disk = fresh();
    let mut e = Engine::new("dir", 0, &p);
    put(&mut e, &mut disk, b"k", b"v1");
    delete(&mut e, &mut disk, b"k");
    assert_eq!(get(&e, &disk, b"k"), None);
    put(&mut e, &mut disk, b"k", b"v2");
    close(&mut e, &mut disk);
    let e2 = reopen(&disk, &p);
    assert_eq!(get(&e2, &disk, b"k"), Some(b"v2".to_vec()));
}

#[test]
fn scenario_newer_buffer_wins_over_frozen() {
    let p = DBParams::new();
    let mut disk = fresh();
    let mut e = Engine::new("dir", 0, &p);
    e.put(b"k", b"v1");
    assert_eq!(e.freeze(), FreezeOutcome::Frozen);
    e.put(b"k", b"v2");
    assert_eq!(get(&e, &disk, b"k"), Some(b"v2".to_vec()));
    flush(&mut e, &mut disk);
    assert_eq!(get(&e, &disk, b"k"), Some(b"v2".to_vec()));
}

#[test]
fn second_freeze_waits_for_the_first_flush() {
    let p = DBParams::new();
    let mut disk = fresh();
    let mut e = Engine::new("dir", 0, &p);
    e.put(b"a", b"1");
    assert_eq!(e.freeze(), FreezeOutcome::Frozen);
    assert!(e.has_frozen());
    e.put(b"a", b"2");
    e.put(b"b", b"3");
    assert_eq!(e.freeze(), FreezeOutcome::Busy);
    // the frozen buffer stays visible while its generation is written
    let job = e.begin_flush().unwrap();
    assert!(e.begin_flush().is_none());
    assert_eq!(e.freeze(), FreezeOutcome::Busy);
    disk.gens.push((job.table.index, job.table.data));
    disk.metadata = job.metadata;
    assert!(e.complete_flush());
    assert!(!e.has_frozen());
    assert_eq!(e.freeze(), FreezeOutcome::Frozen);
    flush(&mut e, &mut disk);
    assert_eq!(get(&e, &disk, b"a"), Some(b"2".to_vec()));
    assert_eq!(get(&e, &disk, b"b"), Some(b"3".to_vec()));
}

#[test]
fn freeze_of_empty_buffer_does_nothing() {
    let p = DBParams::new();
    let mut e = Engine::new("dir", 0, &p);
    assert!(e.is_mem_empty());
    assert_eq!(e.freeze(), FreezeOutcome::Empty);
    assert!(!e.has_frozen());
    assert!(e.begin_flush().is_none());
    assert!(!e.complete_flush());
}

#[test]
fn flushes_number_generations_from_zero() {
    let p = DBParams::new();
    let mut disk = fresh();
    let mut e = Engine::new("dir", 0, &p);
    for i in 0..5u64 {
        e.put(&[i as u8], b"x");
        assert_eq!(e.freeze(), FreezeOutcome::Frozen);
        let job = e.begin_flush().unwrap();
        assert_eq!(job.table.file_no, i);
        assert_eq!(decode_metadata(&job.metadata).unwrap(), i + 1);
        disk.gens.push((job.table.index, job.table.data));
        assert!(e.complete_flush());
        assert_eq!(e.files(), i + 1);
    }
}

#[test]
fn reopened_store_continues_numbering() {
    let p = DBParams::new();
    let mut e = Engine::new("dir", 7, &p);
    e.put(b"k", b"v");
    e.freeze();
    let job = e.begin_flush().unwrap();
    assert_eq!(job.table.file_no, 7);
    assert_eq!(job.metadata, vec![0, 0, 0, 0, 0, 0, 0, 8]);
}

#[test]
fn delete_shadows_older_generations() {
    let p = params(1);
    let mut disk = fresh();
    let mut e = Engine::new("dir", 0, &p);
    for v in [b"1", b"2", b"3"] {
        put(&mut e, &mut disk, b"k", v);
    }
    delete(&mut e, &mut disk, b"k");
    assert_eq!(get(&e, &disk, b"k"), None);
    close(&mut e, &mut disk);
    assert_eq!(get(&e, &disk, b"k"), None);
    let e2 = reopen(&disk, &p);
    assert_eq!(get(&e2, &disk, b"k"), None);
}

#[test]
fn needs_freeze_at_threshold() {
    let p = params(4);
    let mut e = Engine::new("dir", 0, &p);
    e.put(b"a", b"b");
    assert!(!e.needs_freeze());
    e.put(b"c", b"d");
    assert!(e.needs_freeze());
}

#[test]
fn open_plans() {
    let meta = [0, 0, 0, 0, 0, 0, 0, 3];
    assert_eq!(plan_open(true, true, Some(&meta), false).unwrap(), OpenAction::Load(3));
    assert!(matches!(plan_open(true, true, None, true), Err(Error::DBNameInvalidError)));
    assert!(matches!(plan_open(true, false, None, true), Err(Error::DBNameInvalidError)));
    assert_eq!(plan_open(false, false, None, true).unwrap(), OpenAction::Create);
    assert!(matches!(plan_open(false, false, None, false), Err(Error::DBNameInvalidError)));
    assert!(matches!(plan_open(true, true, Some(&[1, 2]), true), Err(Error::IOError(_))));
    let long = [0, 0, 0, 0, 0, 0, 0, 4, 7, 7];
    assert_eq!(plan_open(true, true, Some(&long), true).unwrap(), OpenAction::Load(4));
}

#[test]
fn resolve_stages() {
    assert_eq!(resolve(Some(MemValue::Value(b"v".to_vec()))), Some(Some(b"v".to_vec())));
    assert_eq!(resolve(Some(MemValue::Delete)), Some(None));
    assert_eq!(resolve(None), None);
}

#[test]
fn default_params() {
    let p = DBParams::new();
    assert!(p.create_if_missing);
    assert_eq!(p.write_buffer_size, 8192);
    assert_eq!(p.cache_size, 64);
}

#[test]
fn test_db_open() {
    let p = DBParams::new();
    let mut disk = fresh();
    let mut e = Engine::new("target/testdb1", 0, &p);
    put(&mut e, &mut disk, b"test", b"value");
    let val = get(&e, &disk, b"test").unwrap();
    assert_eq!(std::str::from_utf8(&val).unwrap(), "value");
    close(&mut e, &mut disk);
}

#[test]
fn test_db_get_and_put() {
    let p = DBParams::new();
    let mut disk = fresh();
    let mut e = Engine::new("target/testdb2", 0, &p);
    for i in 0..100 {
        put(&mut e, &mut disk, i.to_string().as_bytes(), i.to_string().as_bytes());
    }
    for i in 0..100 {
        let val = get(&e, &disk, i.to_string().as_bytes()).unwrap();
        assert_eq!(std::str::from_utf8(&val).unwrap(), i.to_string());
    }
    close(&mut e, &mut disk);
}

#[test]
fn frozen_buffer_always_gets_a_flush_job() {
    let p = DBParams::new();
    let mut e = Engine::new("dir", 0, &p);
    e.put(b"k", b"v");
    assert_eq!(e.freeze(), FreezeOutcome::Frozen);
    assert!(e.needs_freeze() == false);
    let job = e.begin_flush();
    assert!(job.is_some());
    assert!(e.complete_flush());
    assert!(!e.complete_flush());
    assert!(e.begin_flush().is_none());
}

#[test]
fn generation_search_goes_newest_first() {
    let mut s = GenerationSearch::new(3);
    assert_eq!(s.first(), ReadStep::Consult(2));
    assert_eq!(s.next(None), ReadStep::Consult(1));
    assert_eq!(s.next(Some(MemValue::Value(b"v".to_vec()))), ReadStep::Done(Some(b"v".to_vec())));
    let mut s = GenerationSearch::new(2);
    assert_eq!(s.first(), ReadStep::Consult(1));
    assert_eq!(s.next(Some(MemValue::Delete)), ReadStep::Done(None));
    let mut s = GenerationSearch::new(1);
    assert_eq!(s.first(), ReadStep::Consult(0));
    assert_eq!(s.next(None), ReadStep::Done(None));
    let mut s = GenerationSearch::new(0);
    assert_eq!(s.first(), ReadStep::Done(None));
}
