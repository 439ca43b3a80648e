use key_value_db::{Compaction, KvStore, KvsError, Result};
use std::collections::BTreeMap;

// The segment files of one directory, by generation.
type Dir = BTreeMap<u64, Vec<u8>>;

fn open(dir: &mut Dir) -> Result<KvStore> {
    let segments: Vec<(u64, Vec<u8>)> = dir.iter().map(|(g, b)| (*g, b.clone())).collect();
    let store = KvStore::open(segments)?;
    dir.insert(store.current_gen(), Vec::new());
    Ok(store)
}

fn carry_out(dir: &mut Dir, plan: &Compaction) {
    dir.insert(plan.active_gen, Vec::new());
    let mut seg = Vec::new();
    for cp in &plan.copies {
        let src = &dir[&cp.gen];
        seg.extend_from_slice(&src[cp.pos as usize..(cp.pos + cp.len) as usize]);
    }
    dir.insert(plan.compaction_gen, seg);
    for g in &plan.stale_gens {
        dir.remove(g);
    }
}

fn set(dir: &mut Dir, store: &mut KvStore, key: String, value: String) -> Result<()> {
    let gen = store.current_gen();
    let (bytes, plan) = store.set(key, value)?;
    dir.get_mut(&gen).unwrap().extend_from_slice(&bytes);
    if let Some(plan) = plan {
        carry_out(dir, &plan);
    }
    Ok(())
}

fn get(dir: &Dir, store: &KvStore, key: String) -> Result<Option<String>> {
    match store.get(&key) {
        Some(cp) => {
            let seg = &dir[&cp.gen];
            let b = &seg[cp.pos as usize..(cp.pos + cp.len) as usize];
            KvStore::read_value(b).map(Some)
        }
        None => Ok(None),
    }
}

fn remove(dir: &mut Dir, store: &mut KvStore, key: String) -> Result<()> {
    let bytes = store.remove(key)?;
    dir.get_mut(&store.current_gen()).unwrap().extend_from_slice(&bytes);
    Ok(())
}

fn dir_size(dir: &Dir) -> u64 {
    dir.values().map(|b| b.len() as u64).sum()
}

#[test]
fn get_stored_value() -> Result<()> {
    let mut dir = Dir::new();
    let mut store = open(&mut dir)?;

    set(&mut dir, &mut store, "key1".to_owned(), "value1".to_owned())?;
    set(&mut dir, &mut store, "key2".to_owned(), "value2".to_owned())?;

    assert_eq!(get(&dir, &store, "key1".to_owned())?, Some("value1".to_owned()));
    assert_eq!(get(&dir, &store, "key2".to_owned())?, Some("value2".to_owned()));

    drop(store);
    let store = open(&mut dir)?;
    assert_eq!(get(&dir, &store, "key1".to_owned())?, Some("value1".to_owned()));
    assert_eq!(get(&dir, &store, "key2".to_owned())?, Some("value2".to_owned()));
    Ok(())
}

#[test]
fn overwrite_value() -> Result<()> {
    let mut dir = Dir::new();
    let mut store = open(&mut dir)?;

    set(&mut dir, &mut store, "key1".to_owned(), "value1".to_owned())?;
    assert_eq!(get(&dir, &store, "key1".to_owned())?, Some("value1".to_owned()));
    set(&mut dir, &mut store, "key1".to_owned(), "value2".to_owned())?;
    assert_eq!(get(&dir, &store, "key1".to_owned())?, Some("value2".to_owned()));

    drop(store);
    let mut store = open(&mut dir)?;
    assert_eq!(get(&dir, &store, "key1".to_owned())?, Some("value2".to_owned()));
    set(&mut dir, &mut store, "key1".to_owned(), "value2".to_owned())?;
    assert_eq!(get(&dir, &store, "key1".to_owned())?, Some("value2".to_owned()));
    set(&mut dir, &mut store, "key1".to_owned(), "value3".to_owned())?;
    assert_eq!(get(&dir, &store, "key1".to_owned())?, Some("value3".to_owned()));
    Ok(())
}

#[test]
fn get_non_existent_value() -> Result<()> {
    let mut dir = Dir::new();
    let mut store = open(&mut dir)?;

    set(&mut dir, &mut store, "key1".to_owned(), "value1".to_owned())?;
    assert_eq!(get(&dir, &store, "key2".to_owned())?, None);

    drop(store);
    let store = open(&mut dir)?;
    assert_eq!(get(&dir, &store, "key2".to_owned())?, None);
    Ok(())
}

#[test]
fn remove_non_existent_key() -> Result<()> {
    let mut dir = Dir::new();
    let mut store = open(&mut dir)?;
    assert!(remove(&mut dir, &mut store, "key1".to_owned()).is_err());
    Ok(())
}

#[test]
fn remove_key() -> Result<()> {
    let mut dir = Dir::new();
    let mut store = open(&mut dir)?;
    set(&mut dir, &mut store, "key1".to_owned(), "value1".to_owned())?;
    assert!(remove(&mut dir, &mut store, "key1".to_owned()).is_ok());
    assert_eq!(get(&dir, &store, "key1".to_owned())?, None);
    Ok(())
}

#[test]
fn compaction() -> Result<()> {
    let mut dir = Dir::new();
    let mut store = open(&mut dir)?;

    let mut current_size = dir_size(&dir);
    for iter in 0..1000 {
        for key_id in 0..1000 {
            let key = format!("key{}", key_id);
            let value = format!("{}", iter);
            set(&mut dir, &mut store, key, value)?;
        }

        let new_size = dir_size(&dir);
        if new_size > current_size {
            current_size = new_size;
            continue;
        }
        // Compaction triggered.

        drop(store);
        // reopen and check content.
        let store = open(&mut dir)?;
        for key_id in 0..1000 {
            let key = format!("key{}", key_id);
            assert_eq!(get(&dir, &store, key)?, Some(format!("{}", iter)));
        }
        return Ok(());
    }

    panic!("No compaction detected");
}

#[test]
fn open_empty_directory_holds_nothing() -> Result<()> {
    let mut dir = Dir::new();
    let store = open(&mut dir)?;
    assert_eq!(store.current_gen(), 1);
    assert_eq!(get(&dir, &store, "k".to_owned())?, None);
    Ok(())
}

#[test]
fn remove_twice_reports_key_not_found() -> Result<()> {
    let mut dir = Dir::new();
    let mut store = open(&mut dir)?;
    set(&mut dir, &mut store, "k".to_owned(), "v".to_owned())?;
    remove(&mut dir, &mut store, "k".to_owned())?;
    assert!(matches!(
        remove(&mut dir, &mut store, "k".to_owned()),
        Err(KvsError::KeyNotFound)
    ));
    assert!(matches!(
        remove(&mut dir, &mut store, "never".to_owned()),
        Err(KvsError::KeyNotFound)
    ));
    Ok(())
}

#[test]
fn remove_persists_across_reopen() -> Result<()> {
    let mut dir = Dir::new();
    let mut store = open(&mut dir)?;
    set(&mut dir, &mut store, "a".to_owned(), "1".to_owned())?;
    set(&mut dir, &mut store, "b".to_owned(), "2".to_owned())?;
    remove(&mut dir, &mut store, "a".to_owned())?;
    drop(store);
    let store = open(&mut dir)?;
    assert_eq!(get(&dir, &store, "a".to_owned())?, None);
    assert_eq!(get(&dir, &store, "b".to_owned())?, Some("2".to_owned()));
    Ok(())
}

#[test]
fn round_trip_follows_last_write() -> Result<()> {
    let mut dir = Dir::new();
    let mut store = open(&mut dir)?;
    set(&mut dir, &mut store, "k".to_owned(), "v1".to_owned())?;
    set(&mut dir, &mut store, "other".to_owned(), "x".to_owned())?;
    set(&mut dir, &mut store, "k".to_owned(), "v2".to_owned())?;
    assert_eq!(get(&dir, &store, "k".to_owned())?, Some("v2".to_owned()));
    remove(&mut dir, &mut store, "k".to_owned())?;
    assert_eq!(get(&dir, &store, "k".to_owned())?, None);
    set(&mut dir, &mut store, "k".to_owned(), "v3".to_owned())?;
    assert_eq!(get(&dir, &store, "k".to_owned())?, Some("v3".to_owned()));
    assert_eq!(get(&dir, &store, "other".to_owned())?, Some("x".to_owned()));
    Ok(())
}

#[test]
fn reopen_continues_after_last_generation() -> Result<()> {
    let mut dir = Dir::new();
    let mut store = open(&mut dir)?;
    set(&mut dir, &mut store, "k".to_owned(), "v".to_owned())?;
    assert_eq!(store.current_gen(), 1);
    drop(store);
    let store = open(&mut dir)?;
    assert_eq!(store.current_gen(), 2);
    Ok(())
}

#[test]
fn set_and_remove_write_exact_records() -> Result<()> {
    let mut dir = Dir::new();
    let mut store = open(&mut dir)?;
    set(&mut dir, &mut store, "key1".to_owned(), "value1".to_owned())?;
    remove(&mut dir, &mut store, "key1".to_owned())?;
    assert_eq!(
        dir[&1],
        br#"{"Set":{"key":"key1","value":"value1"}}{"Remove":{"key":"key1"}}"#.to_vec()
    );
    Ok(())
}

#[test]
fn stale_bytes_trigger_compaction() -> Result<()> {
    let mut dir = Dir::new();
    let mut store = open(&mut dir)?;
    let mut compactions = 0;
    for i in 0..60000u32 {
        let gen = store.current_gen();
        let (bytes, plan) = store.set("k".to_owned(), format!("{}", i % 10))?;
        dir.get_mut(&gen).unwrap().extend_from_slice(&bytes);
        if let Some(plan) = plan {
            compactions += 1;
            assert_eq!(plan.compaction_gen, gen + 1);
            assert_eq!(plan.active_gen, gen + 2);
            assert_eq!(store.current_gen(), gen + 2);
            carry_out(&mut dir, &plan);
            assert_eq!(dir.len(), 2);
            assert_eq!(dir[&plan.active_gen].len(), 0);
            assert_eq!(dir[&plan.compaction_gen].len(), bytes.len());
        }
    }
    // Each overwrite makes one 31-byte record stale: the counter first passes
    // 1048576 at the 33826th overwrite, and not again within 60000 sets.
    assert_eq!(br#"{"Set":{"key":"k","value":"0"}}"#.len(), 31);
    assert_eq!(compactions, 1);
    assert!(dir_size(&dir) < 2 * 1024 * 1024);
    assert_eq!(get(&dir, &store, "k".to_owned())?, Some("9".to_owned()));
    Ok(())
}

#[test]
fn compaction_plan_copies_live_records_in_order() -> Result<()> {
    let mut dir = Dir::new();
    let mut store = open(&mut dir)?;
    set(&mut dir, &mut store, "a".to_owned(), "1".to_owned())?;
    set(&mut dir, &mut store, "b".to_owned(), "2".to_owned())?;
    set(&mut dir, &mut store, "a".to_owned(), "3".to_owned())?;
    let plan = store.compact()?;
    assert_eq!(plan.compaction_gen, 2);
    assert_eq!(plan.active_gen, 3);
    assert_eq!(plan.stale_gens, vec![1]);
    assert_eq!(plan.copies.len(), 2);
    let rec_a = br#"{"Set":{"key":"a","value":"1"}}"#.len() as u64;
    let rec_b = br#"{"Set":{"key":"b","value":"2"}}"#.len() as u64;
    assert_eq!(plan.copies[0].pos, rec_a + rec_b);
    assert_eq!(plan.copies[1].pos, rec_a);
    assert_eq!(store.current_gen(), 3);
    let a = store.get("a").unwrap();
    assert_eq!((a.gen, a.pos, a.len), (2, 0, rec_a));
    let b = store.get("b").unwrap();
    assert_eq!((b.gen, b.pos, b.len), (2, rec_a, rec_b));
    Ok(())
}
