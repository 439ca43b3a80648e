//! The storage engine: the index over the log segments, the replay of a
//! segment at open time, the write path, and compaction.
//!
//! The engine does no I/O itself. It is handed the bytes of the segments that
//! it reads, and it gives back the bytes to append and the copies and
//! deletions to perform. It keeps, as ghost state, the contents of every
//! segment as the caller's files hold them after doing what it was asked.
use vstd::prelude::*;
use crate::codec::{
    Command, Record, decode_at, encode, encoded_len_bound, framed, lemma_encode_framed,
    lemma_framed_alone,
};
use crate::error::{KvsError, Result};
use crate::index::{CommandPos, KeyIndex};

verus! {

/// Stale bytes above this many make the store compact its log.
pub const COMPACTION_THRESHOLD: u64 = 1048576;

/// The records of `b` from `at` on, each with its start and end offsets; `None`
/// where some record does not decode.
pub open spec fn parse_records(b: Seq<u8>, at: int) -> Option<Seq<(Record, int, int)>>
    decreases b.len() - at,
{
    if at < 0 || at >= b.len() {
        Some(Seq::empty())
    } else {
        match decode_at(b, at) {
            Some((r, e)) => {
                if at < e && e <= b.len() {
                    match parse_records(b, e) {
                        Some(t) => Some(seq![(r, at, e)] + t),
                        None => None,
                    }
                } else {
                    None
                }
            },
            None => None,
        }
    }
}

pub open spec fn len_or_zero(idx: Map<Seq<char>, CommandPos>, k: Seq<char>) -> int {
    if idx.contains_key(k) {
        idx[k].len as int
    } else {
        0
    }
}

/// One record of segment `gen` replayed onto an index and a stale-byte tally.
pub open spec fn replay_step(
    st: (Map<Seq<char>, CommandPos>, int),
    gen: u64,
    x: (Record, int, int),
) -> (Map<Seq<char>, CommandPos>, int) {
    let (r, s, e) = x;
    match r {
        Record::Put { key, .. } => (
            st.0.insert(key, CommandPos { gen, pos: s as u64, len: (e - s) as u64 }),
            st.1 + len_or_zero(st.0, key),
        ),
        Record::Remove { key } => (st.0.remove(key), st.1 + len_or_zero(st.0, key) + (e - s)),
    }
}

/// The records of segment `gen` replayed in order.
pub open spec fn replay(
    st: (Map<Seq<char>, CommandPos>, int),
    gen: u64,
    recs: Seq<(Record, int, int)>,
) -> (Map<Seq<char>, CommandPos>, int)
    decreases recs.len(),
{
    if recs.len() == 0 {
        st
    } else {
        replay_step(replay(st, gen, recs.drop_last()), gen, recs.last())
    }
}

pub open spec fn cap(x: int) -> u64 {
    if x > u64::MAX {
        u64::MAX
    } else {
        x as u64
    }
}

/// The bytes of segment `seg` that `cp` points at.
pub open spec fn slice(seg: Seq<u8>, cp: CommandPos) -> Seq<u8> {
    seg.subrange(cp.pos as int, cp.pos + cp.len)
}

/// The value of the `Put` record held by `s`.
pub open spec fn put_value(s: Seq<u8>) -> Seq<char> {
    match decode_at(s, 0) {
        Some((Record::Put { value, .. }, _)) => value,
        _ => Seq::empty(),
    }
}

/// `cp` lies within `seg` and points at a `Put` record of key `k`.
pub open spec fn located(seg: Seq<u8>, k: Seq<char>, cp: CommandPos) -> bool {
    &&& cp.pos + cp.len <= seg.len()
    &&& framed(slice(seg, cp), Record::Put { key: k, value: put_value(slice(seg, cp)) })
}

/// Each record lies within `b`, after the one before, and is framed in place.
pub open spec fn records_ok(b: Seq<u8>, recs: Seq<(Record, int, int)>) -> bool {
    forall|i: int|
        0 <= i < recs.len() ==> 0 <= #[trigger] recs[i].1 < recs[i].2 <= b.len() && framed(
            b.subrange(recs[i].1, recs[i].2),
            recs[i].0,
        )
}

/// The segment decodes into records, each framed in place.
pub open spec fn seg_ok(b: Seq<u8>) -> bool {
    parse_records(b, 0) is Some && records_ok(b, parse_records(b, 0)->Some_0)
}

/// Appending a framed record to a segment appends it to the segment's records.
proof fn lemma_parse_append(
    b: Seq<u8>,
    x: Seq<u8>,
    r: Record,
    at: int,
    t: Seq<(Record, int, int)>,
)
    requires
        0 <= at <= b.len(),
        parse_records(b, at) == Some(t),
        records_ok(b, t),
        framed(x, r),
        x.len() > 0,
    ensures
        parse_records(b + x, at) == Some(t.push((r, b.len() as int, (b.len() + x.len()) as int))),
        records_ok(b + x, t.push((r, b.len() as int, (b.len() + x.len()) as int))),
    decreases b.len() - at,
{
    let bx = b + x;
    let xr = (r, b.len() as int, (b.len() + x.len()) as int);
    assert(bx.subrange(b.len() as int, bx.len() as int) =~= x);
    assert forall|i: int| 0 <= i < t.len() implies bx.subrange(t[i].1, t[i].2) == b.subrange(
        t[i].1,
        t[i].2,
    ) by {
        assert(0 <= t[i].1 < t[i].2 <= b.len());
        assert(bx.subrange(t[i].1, t[i].2) =~= b.subrange(t[i].1, t[i].2));
    }
    assert(records_ok(bx, t.push(xr))) by {
        assert forall|i: int| 0 <= i < t.push(xr).len() implies 0 <= #[trigger] t.push(xr)[i].1
            < t.push(xr)[i].2 <= bx.len() && framed(
            bx.subrange(t.push(xr)[i].1, t.push(xr)[i].2),
            t.push(xr)[i].0,
        ) by {
            if i < t.len() {
                assert(t.push(xr)[i] == t[i]);
            }
        }
    }
    if at == b.len() {
        assert(b + x + Seq::<u8>::empty() =~= bx);
        assert(decode_at(b + x + Seq::<u8>::empty(), b.len() as int) == Some((r, (b.len() + x.len()) as int)));
        assert(parse_records(bx, bx.len() as int) == Some(Seq::<(Record, int, int)>::empty()));
        assert(t =~= Seq::<(Record, int, int)>::empty());
        assert(seq![xr] + Seq::<(Record, int, int)>::empty() =~= t.push(xr));
    } else {
        let (r0, e0) = decode_at(b, at)->Some_0;
        let t2 = parse_records(b, e0)->Some_0;
        assert(t == seq![(r0, at, e0)] + t2);
        assert(t[0] == (r0, at, e0));
        assert(records_ok(b, t2)) by {
            assert forall|i: int| 0 <= i < t2.len() implies 0 <= #[trigger] t2[i].1 < t2[i].2 <= b.len()
                && framed(b.subrange(t2[i].1, t2[i].2), t2[i].0) by {
                assert(t2[i] == t[i + 1]);
            }
        }
        let pre = b.subrange(0, at);
        let piece = b.subrange(at, e0);
        let rest = b.subrange(e0, b.len() as int) + x;
        assert(pre + piece + rest =~= bx);
        assert(decode_at(pre + piece + rest, pre.len() as int) == Some((r0, (pre.len() + piece.len()) as int)));
        lemma_parse_append(b, x, r, e0, t2);
        assert(seq![(r0, at, e0)] + t2.push(xr) =~= t.push(xr));
    }
}

/// Replays the segment `b` of generation `gen` into `index`, and gives the
/// number of stale bytes it holds: the records it supersedes or removes, and
/// its tombstones. Fails with `Codec` where a record does not decode.
pub fn load(gen: u64, b: &[u8], index: &mut KeyIndex) -> (r: Result<u64>)
    requires
        old(index).wf(),
    ensures
        final(index).wf(),
        r is Ok <==> parse_records(b@, 0) is Some,
        r is Err ==> r->Err_0 is Codec,
        r is Ok ==> {
            let st = replay((old(index)@, 0), gen, parse_records(b@, 0)->Some_0);
            &&& final(index)@ == st.0
            &&& r->Ok_0 == cap(st.1)
            &&& st.1 >= 0
            &&& seg_ok(b@)
        },
        r is Ok ==> forall|k: Seq<char>| #[trigger]
            final(index)@.contains_key(k) ==> (old(index)@.contains_key(k) && final(index)@[k]
                == old(index)@[k]) || (final(index)@[k].gen == gen && located(
                b@,
                k,
                final(index)@[k],
            )),
{
    let ghost old_idx = index@;
    let ghost mut done: Seq<(Record, int, int)> = Seq::empty();
    let blen = b.len();
    let mut at: usize = 0;
    let mut stale: u64 = 0;
    while at < blen
        invariant
            blen == b@.len(),
            at <= blen,
            index.wf(),
            parse_records(b@, 0) == (match parse_records(b@, at as int) {
                Some(t) => Some(done + t),
                None => None,
            }),
            index@ == replay((old_idx, 0), gen, done).0,
            stale == cap(replay((old_idx, 0), gen, done).1),
            replay((old_idx, 0), gen, done).1 >= 0,
            forall|k: Seq<char>| #[trigger]
                index@.contains_key(k) ==> (old_idx.contains_key(k) && index@[k] == old_idx[k]) || (
                index@[k].gen == gen && located(b@, k, index@[k])),
            records_ok(b@, done),
            forall|q: int| 0 <= q < done.len() ==> #[trigger] done[q].2 <= at,
        decreases blen - at,
    {
        match Command::decode_at(b, at) {
            None => {
                return Err(KvsError::Codec);
            },
            Some((cmd, end)) => {
                let ghost x = (cmd@, at as int, end as int);
                let ghost prev = replay((old_idx, 0), gen, done);
                let len = (end - at) as u64;
                match cmd {
                    Command::Put { key, value } => {
                        let ghost kv = key@;
                        let cp = CommandPos { gen, pos: at as u64, len };
                        match index.insert(key, cp) {
                            Some(old) => {
                                stale = stale.saturating_add(old.len);
                            },
                            None => {},
                        }
                        proof {
                            let s = b@.subrange(at as int, end as int);
                            assert(slice(b@, cp) == s);
                            lemma_framed_alone(s, Record::Put { key: kv, value: value@ });
                        }
                    },
                    Command::Remove { key } => {
                        match index.remove(key.as_str()) {
                            Some(old) => {
                                stale = stale.saturating_add(old.len);
                            },
                            None => {},
                        }
                        stale = stale.saturating_add(len);
                    },
                }
                proof {
                    let t = parse_records(b@, end as int);
                    if t is Some {
                        assert(done.push(x) + t->Some_0 =~= done + (seq![x] + t->Some_0));
                    }
                    assert(done.push(x).drop_last() =~= done);
                    assert(records_ok(b@, done.push(x))) by {
                        assert forall|q: int| 0 <= q < done.push(x).len() implies 0
                            <= #[trigger] done.push(x)[q].1 < done.push(x)[q].2 <= b@.len() && framed(
                            b@.subrange(done.push(x)[q].1, done.push(x)[q].2),
                            done.push(x)[q].0,
                        ) by {
                            if q < done.len() {
                                assert(done.push(x)[q] == done[q]);
                            }
                        }
                    }
                    done = done.push(x);
                }
                at = end;
            },
        }
    }
    proof {
        assert(done + Seq::<(Record, int, int)>::empty() =~= done);
    }
    Ok(stale)
}

/// The summed lengths of the records of keys `ks`.
pub open spec fn live_total(ks: Seq<Seq<char>>, idx: Map<Seq<char>, CommandPos>) -> int
    decreases ks.len(),
{
    if ks.len() == 0 {
        0
    } else {
        live_total(ks.drop_last(), idx) + idx[ks.last()].len
    }
}

/// The records of keys `ks`, copied one after another.
pub open spec fn compacted(
    disk: Map<u64, Seq<u8>>,
    idx: Map<Seq<char>, CommandPos>,
    ks: Seq<Seq<char>>,
) -> Seq<u8>
    decreases ks.len(),
{
    if ks.len() == 0 {
        Seq::empty()
    } else {
        let cp = idx[ks.last()];
        compacted(disk, idx, ks.drop_last()) + slice(disk[cp.gen], cp)
    }
}

/// The key order after `k` is set: unchanged where `k` was live, else `k`
/// comes last.
pub open spec fn keys_after_insert(
    idx: Map<Seq<char>, CommandPos>,
    keys: Seq<Seq<char>>,
    k: Seq<char>,
) -> Seq<Seq<char>> {
    if idx.contains_key(k) {
        keys
    } else {
        keys.push(k)
    }
}

/// `s` is the store that compacting the segments `disk`, indexed by `idx`
/// with keys in order `keys` and active generation `gen`, leaves, and `c` is
/// the work it hands the caller. Each live record is copied with its bytes
/// unchanged, right after the one before it.
pub open spec fn compacted_to(
    disk: Map<u64, Seq<u8>>,
    idx: Map<Seq<char>, CommandPos>,
    keys: Seq<Seq<char>>,
    gen: u64,
    c: Compaction,
    s: KvStore,
) -> bool {
    let cg = (gen + 1) as u64;
    let ag = (gen + 2) as u64;
    let seg = compacted(disk, idx, keys);
    &&& c.compaction_gen == cg
    &&& c.active_gen == ag
    &&& c.copies@ == keys.map_values(|k: Seq<char>| idx[k])
    &&& forall|g: u64| #[trigger] c.stale_gens@.contains(g) <==> disk.contains_key(g)
    &&& s.disk() == Map::<u64, Seq<u8>>::empty().insert(cg, seg).insert(ag, Seq::empty())
    &&& seg.len() == live_total(keys, idx)
    &&& s.active_gen() == ag
    &&& s.index().dom() == idx.dom()
    &&& forall|i: int|
        0 <= i < keys.len() ==> s.index()[#[trigger] keys[i]] == CommandPos {
            gen: cg,
            pos: live_total(keys.take(i), idx) as u64,
            len: idx[keys[i]].len,
        }
    &&& forall|k: Seq<char>| #[trigger]
        s.index().contains_key(k) ==> slice(seg, s.index()[k]) == slice(disk[idx[k].gen], idx[k])
    &&& s.stale_bytes() == 0
}

/// What compaction asks of the caller: create the segments `compaction_gen`
/// and `active_gen`, copy the records at `copies` in order into the first,
/// then delete the segments `stale_gens`.
#[derive(Debug)]
pub struct Compaction {
    pub compaction_gen: u64,
    pub active_gen: u64,
    pub copies: Vec<CommandPos>,
    pub stale_gens: Vec<u64>,
}

/// Relies on std::io::Error::from: an I/O error of kind `FileTooLarge`, for a
/// segment that would outgrow 64-bit offsets.
#[verifier::external_body]
fn segment_too_large() -> std::io::Error {
    std::io::Error::from(std::io::ErrorKind::FileTooLarge)
}

/// Relies on std::io::Error::from: an I/O error of kind `InvalidData`, for a
/// directory that holds two segment files of one generation.
#[verifier::external_body]
fn duplicate_generation() -> std::io::Error {
    std::io::Error::from(std::io::ErrorKind::InvalidData)
}

/// The state of an open store: the index, the generations whose segments
/// exist, the active generation and its length, and the stale-byte counter.
pub struct KvStore {
    index: KeyIndex,
    gens: Vec<u64>,
    current_gen: u64,
    writer_pos: u64,
    uncompacted: u64,
    disk: Ghost<Map<u64, Seq<u8>>>,
}

/// The segments given to `open`, as generation and bytes.
pub open spec fn segments_view(segments: Seq<(u64, Vec<u8>)>) -> Seq<(u64, Seq<u8>)> {
    segments.map_values(|p: (u64, Vec<u8>)| (p.0, p.1@))
}

/// Every segment decodes.
pub open spec fn all_parse(segs: Seq<(u64, Seq<u8>)>) -> bool {
    forall|i: int| 0 <= i < segs.len() ==> #[trigger] parse_records(segs[i].1, 0) is Some
}

/// The segments replayed in order, from an empty index.
pub open spec fn replay_all(segs: Seq<(u64, Seq<u8>)>) -> (Map<Seq<char>, CommandPos>, int)
    decreases segs.len(),
{
    if segs.len() == 0 {
        (Map::empty(), 0)
    } else {
        let last = segs.last();
        replay(replay_all(segs.drop_last()), last.0, parse_records(last.1, 0)->Some_0)
    }
}

/// The segments as a map from generation to bytes.
pub open spec fn disk_of(segs: Seq<(u64, Seq<u8>)>) -> Map<u64, Seq<u8>>
    decreases segs.len(),
{
    if segs.len() == 0 {
        Map::empty()
    } else {
        disk_of(segs.drop_last()).insert(segs.last().0, segs.last().1)
    }
}

/// The generations `gs`, each with its bytes in `d`.
pub open spec fn listing_of(gs: Seq<u64>, d: Map<u64, Seq<u8>>) -> Seq<(u64, Seq<u8>)> {
    gs.map_values(|g: u64| (g, d[g]))
}

/// `s` is what `open` makes of the segments `segs`.
pub open spec fn opened_from(segs: Seq<(u64, Seq<u8>)>, s: KvStore) -> bool {
    &&& s.wf()
    &&& s.index() == replay_all(segs).0
    &&& s.stale_bytes() == cap(replay_all(segs).1)
    &&& s.active_gen() == next_gen(segs)
    &&& s.disk() == disk_of(segs).insert(s.active_gen(), Seq::empty())
}

/// Each segment's generation is below the next one's.
pub open spec fn strictly_ascending(segs: Seq<(u64, Seq<u8>)>) -> bool {
    forall|i: int, j: int| 0 <= i < j < segs.len() ==> segs[i].0 < segs[j].0
}

/// The generation after the last one given, or 1.
pub open spec fn next_gen(segs: Seq<(u64, Seq<u8>)>) -> int {
    if segs.len() == 0 {
        1
    } else {
        segs.last().0 + 1
    }
}

impl KvStore {
    /// The index: for each live key, where its record lies.
    pub closed spec fn index(&self) -> Map<Seq<char>, CommandPos> {
        self.index@
    }

    /// The bytes of each segment, by generation.
    pub closed spec fn disk(&self) -> Map<u64, Seq<u8>> {
        self.disk@
    }

    /// The generation that receives writes.
    pub closed spec fn active_gen(&self) -> u64 {
        self.current_gen
    }

    pub closed spec fn stale_bytes(&self) -> u64 {
        self.uncompacted
    }

    /// The segments in ascending order of generation, the active one last:
    /// what a reopened store is handed.
    pub closed spec fn listing(&self) -> Seq<(u64, Seq<u8>)> {
        listing_of(self.gens@, self.disk@)
    }

    /// The live keys, in the order in which compaction copies them.
    pub closed spec fn keys(&self) -> Seq<Seq<char>> {
        self.index.key_seq()
    }

    /// What the store holds: each live key with the value of its record.
    pub open spec fn contents(&self) -> Map<Seq<char>, Seq<char>> {
        Map::new(
            |k: Seq<char>| self.index().contains_key(k),
            |k: Seq<char>| put_value(slice(self.disk()[self.index()[k].gen], self.index()[k])),
        )
    }

    pub closed spec fn wf(&self) -> bool {
        &&& self.index.wf()
        &&& self.gens@.no_duplicates()
        &&& forall|g: u64| #[trigger] self.disk@.contains_key(g) <==> self.gens@.contains(g)
        &&& self.disk@.contains_key(self.current_gen)
        &&& forall|g: u64| #[trigger] self.disk@.contains_key(g) ==> g <= self.current_gen
        &&& self.writer_pos == self.disk@[self.current_gen].len()
        &&& forall|k: Seq<char>| #[trigger]
            self.index@.contains_key(k) ==> self.disk@.contains_key(self.index@[k].gen) && located(
                self.disk@[self.index@[k].gen],
                k,
                self.index@[k],
            )
        &&& forall|i: int, j: int| 0 <= i < j < self.gens@.len() ==> self.gens@[i] < self.gens@[j]
        &&& self.gens@.len() > 0
        &&& self.gens@.last() == self.current_gen
        &&& forall|g: u64| #[trigger] self.disk@.contains_key(g) ==> seg_ok(self.disk@[g])
        &&& replay_all(self.listing()).0 == self.index@
    }

    /// `keys` lists each live key exactly once, so the records that compaction
    /// copies along it tile the new segment.
    pub proof fn lemma_keys_once(&self)
        requires
            self.wf(),
        ensures
            self.keys().no_duplicates(),
            forall|k: Seq<char>| self.index().contains_key(k) <==> #[trigger] self.keys().contains(k),
            self.keys().len() == self.index().dom().len(),
    {
        self.index.lemma_keys();
    }

    /// Every live key's location holds a `Put` record of that key and its
    /// value, and that record reads back from exactly the bytes located.
    pub proof fn lemma_located(&self, k: Seq<char>)
        requires
            self.wf(),
            self.contents().contains_key(k),
        ensures
            self.disk().contains_key(self.index()[k].gen),
            self.index()[k].pos + self.index()[k].len <= self.disk()[self.index()[k].gen].len(),
            decode_at(slice(self.disk()[self.index()[k].gen], self.index()[k]), 0) == Some(
                (
                    Record::Put { key: k, value: self.contents()[k] },
                    self.index()[k].len as int,
                ),
            ),
    {
        let cp = self.index@[k];
        let s = slice(self.disk@[cp.gen], cp);
        lemma_framed_alone(s, Record::Put { key: k, value: put_value(s) });
    }

    /// The listing of a well-formed store is what `open` accepts: ascending
    /// generations, each segment decoding, and the segments as the store has
    /// them.
    pub proof fn lemma_listing(&self)
        requires
            self.wf(),
        ensures
            forall|i: int, j: int|
                0 <= i < j < self.listing().len() ==> self.listing()[i].0 < self.listing()[j].0,
            forall|i: int|
                0 <= i < self.listing().len() ==> #[trigger] self.listing()[i].0 <= self.active_gen(),
            all_parse(self.listing()),
            disk_of(self.listing()) == self.disk(),
            next_gen(self.listing()) == self.active_gen() + 1,
    {
        let l = self.listing();
        assert forall|i: int| 0 <= i < l.len() implies #[trigger] parse_records(l[i].1, 0) is Some by {
            assert(self.gens@.contains(self.gens@[i]));
            assert(self.disk@.contains_key(self.gens@[i]));
        }
        assert forall|i: int| 0 <= i < l.len() implies #[trigger] l[i].0 <= self.active_gen() by {
            assert(self.gens@.contains(self.gens@[i]));
            assert(self.disk@.contains_key(self.gens@[i]));
        }
        lemma_disk_of_listing(self.gens@, self.disk@);
        assert(disk_of(l) =~= self.disk@);
    }

    /// A store reopened on the listing of a well-formed store holds the same
    /// contents.
    pub proof fn lemma_reopen(&self, s2: KvStore)
        requires
            self.wf(),
            opened_from(self.listing(), s2),
        ensures
            s2.contents() == self.contents(),
    {
        self.lemma_listing();
        assert(s2.contents() =~= self.contents()) by {
            assert forall|k: Seq<char>| #[trigger] s2.contents().contains_key(k) implies s2.contents()[k]
                == self.contents()[k] by {
                assert(self.index@.contains_key(k));
                assert(self.disk@.contains_key(self.index@[k].gen));
            }
        }
    }

    /// Opens a store on the given segments, in ascending order of generation,
    /// replaying each into the index. The new active segment comes after the
    /// last of them. Fails with `Io` where two segments have the same
    /// generation, and otherwise with `Codec` where a record does not decode.
    pub fn open(segments: Vec<(u64, Vec<u8>)>) -> (r: Result<KvStore>)
        requires
            forall|i: int, j: int|
                0 <= i < j < segments@.len() ==> segments@[i].0 <= segments@[j].0,
            forall|i: int| 0 <= i < segments@.len() ==> segments@[i].0 < u64::MAX,
        ensures
            r is Ok <==> strictly_ascending(segments_view(segments@)) && all_parse(
                segments_view(segments@),
            ),
            r is Err ==> if strictly_ascending(segments_view(segments@)) {
                r->Err_0 is Codec
            } else {
                r->Err_0 is Io
            },
            r is Ok ==> opened_from(segments_view(segments@), r->Ok_0),
    {
        let ghost segs = segments_view(segments@);
        let n = segments.len();
        let mut i: usize = 0;
        while i < n
            invariant
                n == segments@.len(),
                segs == segments_view(segments@),
                i <= n,
                forall|a: int| 0 <= a < i && a + 1 < n ==> segments@[a].0 != #[trigger] segments@[a + 1].0,
            decreases n - i,
        {
            if i + 1 < n && segments[i].0 == segments[i + 1].0 {
                proof {
                    assert(segs[i as int].0 == segs[i + 1].0);
                }
                return Err(KvsError::Io(duplicate_generation()));
            }
            i = i + 1;
        }
        proof {
            assert forall|a: int, c: int| 0 <= a < c < segments@.len() implies segments@[a].0
                < segments@[c].0 by {
                assert(segments@[a].0 != segments@[a + 1].0);
                assert(segments@[a + 1].0 <= segments@[c].0 || a + 1 == c);
            }
            assert(strictly_ascending(segs));
        }
        KvStore::open_distinct(segments)
    }

    /// Opens a store on segments of distinct generations, in ascending order.
    fn open_distinct(segments: Vec<(u64, Vec<u8>)>) -> (r: Result<KvStore>)
        requires
            forall|i: int, j: int|
                0 <= i < j < segments@.len() ==> segments@[i].0 < segments@[j].0,
            forall|i: int| 0 <= i < segments@.len() ==> segments@[i].0 < u64::MAX,
        ensures
            r is Ok <==> all_parse(segments_view(segments@)),
            r is Err ==> r->Err_0 is Codec,
            strictly_ascending(segments_view(segments@)),
            r is Ok ==> opened_from(segments_view(segments@), r->Ok_0),
    {
        let ghost segs = segments_view(segments@);
        let mut index = KeyIndex::new();
        let mut gens: Vec<u64> = Vec::new();
        let ghost mut disk: Map<u64, Seq<u8>> = Map::empty();
        let mut uncompacted: u64 = 0;
        let mut current_gen: u64 = 1;
        let n = segments.len();
        let mut i: usize = 0;
        while i < n
            invariant
                n == segments@.len(),
                segs == segments_view(segments@),
                i <= n,
                forall|a: int, c: int|
                    0 <= a < c < segments@.len() ==> segments@[a].0 < segments@[c].0,
                forall|a: int| 0 <= a < segments@.len() ==> segments@[a].0 < u64::MAX,
                forall|a: int| 0 <= a < i ==> #[trigger] parse_records(segs[a].1, 0) is Some,
                index.wf(),
                index@ == replay_all(segs.take(i as int)).0,
                replay_all(segs.take(i as int)).1 >= 0,
                uncompacted == cap(replay_all(segs.take(i as int)).1),
                disk == disk_of(segs.take(i as int)),
                current_gen == next_gen(segs.take(i as int)),
                gens@ == segs.take(i as int).map_values(|p: (u64, Seq<u8>)| p.0),
                forall|g: u64| #[trigger]
                    disk.contains_key(g) ==> g < current_gen,
                forall|g: u64| #[trigger] disk.contains_key(g) ==> seg_ok(disk[g]),
                forall|k: Seq<char>| #[trigger]
                    index@.contains_key(k) ==> disk.contains_key(index@[k].gen) && located(
                        disk[index@[k].gen],
                        k,
                        index@[k],
                    ),
            decreases n - i,
        {
            let gen = segments[i].0;
            let ghost before = index@;
            let ghost prefix = segs.take(i as int);
            assert(segs.take(i + 1).drop_last() =~= prefix);
            assert(segs[i as int] == (gen, segments@[i as int].1@));
            let stale = match load(gen, segments[i].1.as_slice(), &mut index) {
                Ok(st) => st,
                Err(e) => {
                    proof {
                        assert(!(parse_records(segs[i as int].1, 0) is Some));
                        assert(!all_parse(segs));
                    }
                    return Err(e);
                },
            };
            uncompacted = uncompacted.saturating_add(stale);
            proof {
                let prev = replay_all(prefix);
                let recs = parse_records(segs[i as int].1, 0)->Some_0;
                assert(segs.take(i + 1).last() == segs[i as int]);
                lemma_replay_shift(prev.0, prev.1, gen, recs);
                assert(replay_all(segs.take(i + 1)) == replay(prev, gen, recs));
                assert forall|a: int| 0 <= a < i + 1 implies #[trigger] parse_records(segs[a].1, 0) is Some by {
                }
                assert(disk_of(segs.take(i + 1)) == disk_of(prefix).insert(gen, segs[i as int].1));
                assert(forall|g: u64| #[trigger] disk.contains_key(g) ==> g != gen) by {
                    if i > 0 {
                        assert(current_gen == segs[i - 1].0 + 1);
                        assert(segments@[i - 1].0 < segments@[i as int].0);
                    }
                }
                let d2 = disk.insert(gen, segs[i as int].1);
                assert forall|k: Seq<char>| #[trigger] index@.contains_key(k) implies d2.contains_key(
                    index@[k].gen,
                ) && located(d2[index@[k].gen], k, index@[k]) by {
                    if index@[k].gen != gen {
                        assert(before.contains_key(k) && index@[k] == before[k]);
                    }
                }
                disk = d2;
            }
            gens.push(gen);
            proof {
                assert(gens@ =~= segs.take(i + 1).map_values(|p: (u64, Seq<u8>)| p.0));
            }
            current_gen = gen + 1;
            i = i + 1;
        }
        proof {
            assert(segs.take(n as int) =~= segs);
        }
        let ghost d_final = disk.insert(current_gen, Seq::empty());
        gens.push(current_gen);
        let store = KvStore {
            index,
            gens,
            current_gen,
            writer_pos: 0,
            uncompacted,
            disk: Ghost(d_final),
        };
        proof {
            assert(segs.map_values(|p: (u64, Seq<u8>)| p.0).no_duplicates()) by {
                let gs = segs.map_values(|p: (u64, Seq<u8>)| p.0);
                assert forall|a: int, c: int| 0 <= a < gs.len() && 0 <= c < gs.len() && a != c implies gs[a] != gs[c] by {
                    if a < c {
                        assert(segments@[a].0 < segments@[c].0);
                    } else {
                        assert(segments@[c].0 < segments@[a].0);
                    }
                }
            }
            lemma_disk_of_dom(segs);
            let gs = segs.map_values(|p: (u64, Seq<u8>)| p.0);
            assert(store.gens@ == gs.push(current_gen));
            assert(disk == disk_of(segs));
            assert forall|g: u64| #[trigger] store.disk@.contains_key(g) <==> store.gens@.contains(g) by {
                if g == current_gen {
                    assert(store.gens@[gs.len() as int] == g);
                } else {
                    if store.gens@.contains(g) {
                        let a = choose|a: int| 0 <= a < store.gens@.len() && store.gens@[a] == g;
                        assert(a < gs.len());
                        assert(gs[a] == segs[a].0);
                        assert(disk_of(segs).contains_key(g));
                    }
                    if disk.contains_key(g) {
                        assert(disk_of(segs).contains_key(g));
                        let a = choose|a: int| 0 <= a < segs.len() && segs[a].0 == g;
                        assert(store.gens@[a] == g);
                    }
                }
            }
            assert forall|k: Seq<char>| #[trigger] store.index@.contains_key(k) implies store.disk@.contains_key(store.index@[k].gen) && located(
                store.disk@[store.index@[k].gen],
                k,
                store.index@[k],
            ) by {
                assert(disk.contains_key(store.index@[k].gen));
            }
            lemma_empty_seg();
            assert forall|a: int, c: int| 0 <= a < c < store.gens@.len() implies store.gens@[a]
                < store.gens@[c] by {
                if c < gs.len() {
                    assert(segments@[a].0 < segments@[c].0);
                } else if n > 0 {
                    assert(current_gen == segs[n - 1].0 + 1);
                    if a < n - 1 {
                        assert(segments@[a].0 < segments@[n - 1].0);
                    }
                }
            }
            assert(store.listing() =~= segs.push((current_gen, Seq::empty()))) by {
                assert forall|a: int| 0 <= a < segs.len() implies store.listing()[a] == segs.push(
                    (current_gen, Seq::empty()),
                )[a] by {
                    lemma_disk_of_at(segs, a);
                    assert(segs[a].0 != current_gen);
                }
            }
            lemma_replay_push_empty(segs, current_gen);
        }
        Ok(store)
    }

    /// The generation that receives writes.
    pub fn current_gen(&self) -> (r: u64)
        ensures
            r == self.active_gen(),
    {
        self.current_gen
    }

    /// The state that `set` leaves is well formed and holds the new value.
    proof fn lemma_set_wf(
        old_s: KvStore,
        new_s: KvStore,
        k: Seq<char>,
        v: Seq<char>,
        bytes: Seq<u8>,
    )
        requires
            old_s.wf(),
            new_s.index.wf(),
            bytes == encode(Record::Put { key: k, value: v }),
            (Record::Put { key: k, value: v }).reads_back(),
            new_s.index@ == old_s.index@.insert(
                k,
                CommandPos {
                    gen: old_s.current_gen,
                    pos: old_s.writer_pos,
                    len: bytes.len() as u64,
                },
            ),
            new_s.gens == old_s.gens,
            new_s.current_gen == old_s.current_gen,
            new_s.writer_pos == old_s.writer_pos + bytes.len(),
            new_s.disk@ == old_s.disk@.insert(
                old_s.current_gen,
                old_s.disk@[old_s.current_gen] + bytes,
            ),
        ensures
            new_s.wf(),
            new_s.contents() == old_s.contents().insert(k, v),
    {
        lemma_put_value_encode(k, v);
        assert(replay_all(new_s.listing()).0 == new_s.index@) by {
            lemma_replay_append(old_s.gens@, old_s.disk@, bytes, Record::Put { key: k, value: v });
            assert(new_s.index@ =~= replay_all(new_s.listing()).0);
        }
        assert(forall|g: u64| #[trigger] new_s.disk@.contains_key(g) ==> seg_ok(new_s.disk@[g])) by {
            lemma_replay_append(old_s.gens@, old_s.disk@, bytes, Record::Put { key: k, value: v });
            assert forall|g: u64| #[trigger] new_s.disk@.contains_key(g) implies seg_ok(new_s.disk@[g]) by {
                assert(old_s.disk@.contains_key(g));
            }
        }
        KvStore::lemma_set_entries(old_s, new_s, k, v, bytes);
    }

    /// The entries that `set` leaves are located, and hold the new value.
    proof fn lemma_set_entries(
        old_s: KvStore,
        new_s: KvStore,
        k: Seq<char>,
        v: Seq<char>,
        bytes: Seq<u8>,
    )
        requires
            old_s.wf(),
            new_s.index.wf(),
            bytes == encode(Record::Put { key: k, value: v }),
            (Record::Put { key: k, value: v }).reads_back(),
            new_s.index@ == old_s.index@.insert(
                k,
                CommandPos {
                    gen: old_s.current_gen,
                    pos: old_s.writer_pos,
                    len: bytes.len() as u64,
                },
            ),
            new_s.gens == old_s.gens,
            new_s.current_gen == old_s.current_gen,
            new_s.writer_pos == old_s.writer_pos + bytes.len(),
            new_s.disk@ == old_s.disk@.insert(
                old_s.current_gen,
                old_s.disk@[old_s.current_gen] + bytes,
            ),
        ensures
            forall|q: Seq<char>| #[trigger] new_s.index@.contains_key(q) ==> new_s.disk@.contains_key(
                new_s.index@[q].gen,
            ) && located(new_s.disk@[new_s.index@[q].gen], q, new_s.index@[q]),
            forall|g: u64| #[trigger] new_s.disk@.contains_key(g) <==> new_s.gens@.contains(g),
            new_s.contents() == old_s.contents().insert(k, v),
    {
        let cg = old_s.current_gen;
        let seg = old_s.disk@[cg];
        let cp = new_s.index@[k];
        lemma_put_value_encode(k, v);
        assert(slice(seg + bytes, cp) =~= bytes);
        assert forall|q: Seq<char>| #[trigger] new_s.index@.contains_key(q) implies new_s.disk@.contains_key(
            new_s.index@[q].gen,
        ) && located(new_s.disk@[new_s.index@[q].gen], q, new_s.index@[q]) by {
            if q != k {
                let qp = old_s.index@[q];
                assert(old_s.index@.contains_key(q));
                if qp.gen == cg {
                    lemma_append_keeps(seg, bytes, qp);
                }
            }
        }
        assert forall|g: u64| #[trigger] new_s.disk@.contains_key(g) <==> new_s.gens@.contains(g) by {
            assert(old_s.disk@.contains_key(g) <==> old_s.gens@.contains(g));
        }
        assert(new_s.contents() =~= old_s.contents().insert(k, v)) by {
            assert forall|q: Seq<char>| #[trigger] new_s.contents().contains_key(q) && q != k implies new_s.contents()[q] == old_s.contents()[q] by {
                let qp = old_s.index@[q];
                if qp.gen == cg {
                    lemma_append_keeps(seg, bytes, qp);
                }
            }
        }
    }

    /// The bytes of the `Put` record that sets `key` to `value`, which the
    /// caller appends to the active segment before `commit_set`. Changes
    /// nothing; fails with `Io` where the active segment would outgrow 64-bit
    /// offsets.
    pub fn prepare_set(&self, key: &String, value: &String) -> (r: Result<Vec<u8>>)
        requires
            self.wf(),
        ensures
            r is Err <==> self.disk()[self.active_gen()].len() + encode(
                Record::Put { key: key@, value: value@ },
            ).len() > u64::MAX,
            r is Err ==> r->Err_0 is Io,
            r is Ok ==> r->Ok_0@ == encode(Record::Put { key: key@, value: value@ }) && (Record::Put {
                key: key@,
                value: value@,
            }).reads_back(),
            encode(Record::Put { key: key@, value: value@ }).len() <= encoded_len_bound(
                Record::Put { key: key@, value: value@ },
            ),
    {
        let cmd = Command::set(key.clone(), value.clone());
        let bytes = match cmd.encode() {
            Ok(b) => b,
            Err(e) => {
                return Err(KvsError::Serde(e));
            },
        };
        if bytes.len() as u64 > u64::MAX - self.writer_pos {
            return Err(KvsError::Io(segment_too_large()));
        }
        Ok(bytes)
    }

    /// Records `key` = `value` once the caller has appended `bytes`, as
    /// `prepare_set` gave them, to the active segment. Where the stale bytes
    /// then exceed the compaction threshold, runs compaction and gives it, for
    /// the caller to carry out.
    pub fn commit_set(&mut self, key: String, value: String, bytes: &Vec<u8>) -> (plan: Option<
        Compaction,
    >)
        requires
            old(self).wf(),
            bytes@ == encode(Record::Put { key: key@, value: value@ }),
            (Record::Put { key: key@, value: value@ }).reads_back(),
            old(self).disk()[old(self).active_gen()].len() + bytes@.len() <= u64::MAX,
        ensures
            final(self).wf(),
            ({
                let ag = old(self).active_gen();
                let seg = old(self).disk()[ag];
                let idx = old(self).index().insert(
                    key@,
                    CommandPos { gen: ag, pos: seg.len() as u64, len: bytes@.len() as u64 },
                );
                let disk = old(self).disk().insert(ag, seg + bytes@);
                let keys = keys_after_insert(old(self).index(), old(self).keys(), key@);
                let stale = cap(old(self).stale_bytes() + len_or_zero(old(self).index(), key@));
                &&& final(self).contents() == old(self).contents().insert(key@, value@)
                &&& (plan is Some <==> (stale > COMPACTION_THRESHOLD && ag < u64::MAX - 1
                    && live_total(keys, idx) <= u64::MAX))
                &&& plan is None ==> {
                    &&& final(self).index() == idx
                    &&& final(self).keys() == keys
                    &&& final(self).disk() == disk
                    &&& final(self).active_gen() == ag
                    &&& final(self).stale_bytes() == stale
                }
                &&& plan is Some ==> compacted_to(disk, idx, keys, ag, plan->Some_0, *final(self))
            }),
    {
        let ghost old_self = *self;
        let ghost k = key@;
        let len = bytes.len() as u64;
        let pos = self.writer_pos;
        let cp = CommandPos { gen: self.current_gen, pos, len };
        match self.index.insert(key, cp) {
            Some(old) => {
                self.uncompacted = self.uncompacted.saturating_add(old.len);
            },
            None => {},
        }
        self.writer_pos = pos + len;
        let ghost cg = self.current_gen;
        let ghost seg = old_self.disk@[cg];
        self.disk = Ghost(self.disk@.insert(cg, seg + bytes@));
        proof {
            KvStore::lemma_set_wf(old_self, *self, k, value@, bytes@);
        }
        if self.uncompacted > COMPACTION_THRESHOLD && self.current_gen < u64::MAX - 1 {
            match self.compact() {
                Ok(plan) => Some(plan),
                Err(_) => None,
            }
        } else {
            None
        }
    }

    /// Sets `key` to `value`: `prepare_set` then `commit_set`. Gives the bytes
    /// of the `Put` record, which the caller appends to the active segment,
    /// and the compaction, if one ran, which the caller carries out after
    /// appending. Fails, changing nothing, where the active segment would
    /// outgrow 64-bit offsets.
    pub fn set(&mut self, key: String, value: String) -> (r: Result<(Vec<u8>, Option<Compaction>)>)
        requires
            old(self).wf(),
        ensures
            final(self).wf(),
            encode(Record::Put { key: key@, value: value@ }).len() <= encoded_len_bound(
                Record::Put { key: key@, value: value@ },
            ),
            r is Err <==> old(self).disk()[old(self).active_gen()].len() + encode(
                Record::Put { key: key@, value: value@ },
            ).len() > u64::MAX,
            r is Err ==> r->Err_0 is Io && *final(self) == *old(self),
            r is Ok ==> {
                let bytes = r->Ok_0.0;
                let plan = r->Ok_0.1;
                let ag = old(self).active_gen();
                let seg = old(self).disk()[ag];
                let idx = old(self).index().insert(
                    key@,
                    CommandPos { gen: ag, pos: seg.len() as u64, len: bytes@.len() as u64 },
                );
                let disk = old(self).disk().insert(ag, seg + bytes@);
                let keys = keys_after_insert(old(self).index(), old(self).keys(), key@);
                let stale = cap(old(self).stale_bytes() + len_or_zero(old(self).index(), key@));
                &&& bytes@ == encode(Record::Put { key: key@, value: value@ })
                &&& final(self).contents() == old(self).contents().insert(key@, value@)
                &&& (plan is Some <==> (stale > COMPACTION_THRESHOLD && ag < u64::MAX - 1
                    && live_total(keys, idx) <= u64::MAX))
                &&& plan is None ==> {
                    &&& final(self).index() == idx
                    &&& final(self).keys() == keys
                    &&& final(self).disk() == disk
                    &&& final(self).active_gen() == ag
                    &&& final(self).stale_bytes() == stale
                }
                &&& plan is Some ==> compacted_to(disk, idx, keys, ag, plan->Some_0, *final(self))
            },
    {
        let bytes = self.prepare_set(&key, &value)?;
        let plan = self.commit_set(key, value, &bytes);
        Ok((bytes, plan))
    }

    /// The bytes of the `Remove` record of `key`, which the caller appends to
    /// the active segment before `commit_remove`. Changes nothing; fails with
    /// `KeyNotFound` exactly where the store does not hold `key`, and
    /// otherwise with `Io` where the active segment would outgrow 64-bit
    /// offsets.
    pub fn prepare_remove(&self, key: &String) -> (r: Result<Vec<u8>>)
        requires
            self.wf(),
        ensures
            (r is Err && r->Err_0 is KeyNotFound) <==> !self.contents().contains_key(key@),
            r is Err <==> (!self.contents().contains_key(key@) || self.disk()[self.active_gen()].len()
                + encode(Record::Remove { key: key@ }).len() > u64::MAX),
            r is Err && self.contents().contains_key(key@) ==> r->Err_0 is Io,
            r is Ok ==> r->Ok_0@ == encode(Record::Remove { key: key@ }) && (Record::Remove {
                key: key@,
            }).reads_back(),
            self.contents().contains_key(key@) ==> encode(Record::Remove { key: key@ }).len()
                <= encoded_len_bound(Record::Remove { key: key@ }),
    {
        if self.index.get(key.as_str()).is_none() {
            return Err(KvsError::KeyNotFound);
        }
        let cmd = Command::remove(key.clone());
        let bytes = match cmd.encode() {
            Ok(b) => b,
            Err(e) => {
                return Err(KvsError::Serde(e));
            },
        };
        if bytes.len() as u64 > u64::MAX - self.writer_pos {
            return Err(KvsError::Io(segment_too_large()));
        }
        Ok(bytes)
    }

    /// Removes `key` once the caller has appended `bytes`, as `prepare_remove`
    /// gave them, to the active segment.
    pub fn commit_remove(&mut self, key: String, bytes: &Vec<u8>)
        requires
            old(self).wf(),
            old(self).contents().contains_key(key@),
            bytes@ == encode(Record::Remove { key: key@ }),
            (Record::Remove { key: key@ }).reads_back(),
            old(self).disk()[old(self).active_gen()].len() + bytes@.len() <= u64::MAX,
        ensures
            final(self).wf(),
            ({
                let ag = old(self).active_gen();
                let seg = old(self).disk()[ag];
                &&& final(self).contents() == old(self).contents().remove(key@)
                &&& final(self).index() == old(self).index().remove(key@)
                &&& final(self).disk() == old(self).disk().insert(ag, seg + bytes@)
                &&& final(self).active_gen() == ag
                &&& final(self).stale_bytes() == cap(
                    old(self).stale_bytes() + old(self).index()[key@].len + bytes@.len(),
                )
            }),
    {
        let ghost old_self = *self;
        let ghost k = key@;
        let ghost rec = Record::Remove { key: key@ };
        let len = bytes.len() as u64;
        match self.index.remove(key.as_str()) {
            Some(old) => {
                self.uncompacted = self.uncompacted.saturating_add(old.len);
            },
            None => {},
        }
        self.uncompacted = self.uncompacted.saturating_add(len);
        self.writer_pos = self.writer_pos + len;
        let ghost cg = self.current_gen;
        let ghost seg = old_self.disk@[cg];
        self.disk = Ghost(self.disk@.insert(cg, seg + bytes@));
        proof {
            lemma_encode_framed(rec);
            lemma_replay_append(self.gens@, old_self.disk@, bytes@, rec);
            assert(self.index@ =~= replay_all(self.listing()).0);
            assert forall|g: u64| #[trigger] self.disk@.contains_key(g) implies seg_ok(self.disk@[g]) by {
                assert(old_self.disk@.contains_key(g));
            }
            assert forall|q: Seq<char>| #[trigger] self.index@.contains_key(q) implies self.disk@.contains_key(
                self.index@[q].gen,
            ) && located(self.disk@[self.index@[q].gen], q, self.index@[q]) by {
                let qp = old_self.index@[q];
                assert(old_self.index@.contains_key(q));
                if qp.gen == cg {
                    lemma_append_keeps(seg, bytes@, qp);
                }
            }
            assert forall|g: u64| #[trigger] self.disk@.contains_key(g) <==> self.gens@.contains(g) by {
                assert(old_self.disk@.contains_key(g) <==> old_self.gens@.contains(g));
            }
            assert(self.contents() =~= old_self.contents().remove(k)) by {
                assert forall|q: Seq<char>| #[trigger] self.contents().contains_key(q) implies self.contents()[q] == old_self.contents()[q] by {
                    let qp = old_self.index@[q];
                    if qp.gen == cg {
                        lemma_append_keeps(seg, bytes@, qp);
                    }
                }
            }
        }
    }

    /// Removes `key`: `prepare_remove` then `commit_remove`. Gives the bytes
    /// of the `Remove` record, which the caller appends to the active
    /// segment. Fails, changing nothing, with `KeyNotFound` exactly where the
    /// store does not hold `key`, and with `Io` where the active segment would
    /// outgrow 64-bit offsets.
    pub fn remove(&mut self, key: String) -> (r: Result<Vec<u8>>)
        requires
            old(self).wf(),
        ensures
            final(self).wf(),
            old(self).contents().contains_key(key@) ==> encode(Record::Remove { key: key@ }).len()
                <= encoded_len_bound(Record::Remove { key: key@ }),
            (r is Err && r->Err_0 is KeyNotFound) <==> !old(self).contents().contains_key(key@),
            r is Ok ==> {
                let ag = old(self).active_gen();
                let seg = old(self).disk()[ag];
                &&& r->Ok_0@ == encode(Record::Remove { key: key@ })
                &&& final(self).contents() == old(self).contents().remove(key@)
                &&& final(self).index() == old(self).index().remove(key@)
                &&& final(self).disk() == old(self).disk().insert(ag, seg + r->Ok_0@)
                &&& final(self).active_gen() == ag
                &&& final(self).stale_bytes() == cap(
                    old(self).stale_bytes() + old(self).index()[key@].len + r->Ok_0@.len(),
                )
            },
            r is Err ==> *final(self) == *old(self),
            r is Err <==> (!old(self).contents().contains_key(key@) || old(self).disk()[old(
                self,
            ).active_gen()].len() + encode(Record::Remove { key: key@ }).len() > u64::MAX),
            r is Err && old(self).contents().contains_key(key@) ==> r->Err_0 is Io,
    {
        let bytes = self.prepare_remove(&key)?;
        self.commit_remove(key, &bytes);
        Ok(bytes)
    }

    /// Compacts the log: the live records are copied, in the order of `keys`,
    /// into a new segment `compaction_gen`, every existing segment becomes
    /// stale, and writes go on in a new segment `active_gen`. The contents are
    /// kept and the stale-byte counter drops to zero. Fails, changing nothing,
    /// where the live records together would outgrow 64-bit offsets.
    pub fn compact(&mut self) -> (r: Result<Compaction>)
        requires
            old(self).wf(),
            old(self).active_gen() < u64::MAX - 1,
        ensures
            final(self).wf(),
            r is Ok <==> live_total(old(self).keys(), old(self).index()) <= u64::MAX,
            r is Err ==> r->Err_0 is Io && *final(self) == *old(self),
            r is Ok ==> compacted_to(
                old(self).disk(),
                old(self).index(),
                old(self).keys(),
                old(self).active_gen(),
                r->Ok_0,
                *final(self),
            ),
            r is Ok ==> final(self).contents() == old(self).contents(),
    {
        let ghost old_self = *self;
        let ghost ks = self.index.key_seq();
        let ghost idx = self.index@;
        let ghost disk = self.disk@;
        proof {
            self.index.lemma_keys();
            assert forall|a: int| 0 <= a < ks.len() implies idx.contains_key(#[trigger] ks[a]) by {
                assert(ks.contains(ks[a]));
            }
        }
        let n = self.index.len();
        let mut total: u64 = 0;
        let mut i: usize = 0;
        while i < n
            invariant
                old_self.wf(),
                self.index.wf(),
                *self == old_self,
                ks == self.index.key_seq(),
                idx == self.index@,
                n == ks.len(),
                i <= n,
                total == live_total(ks.take(i as int), idx),
                forall|a: int| 0 <= a < ks.len() ==> idx.contains_key(#[trigger] ks[a]),
            decreases n - i,
        {
            assert(ks.take(i + 1).drop_last() =~= ks.take(i as int));
            let len = match self.index.get(self.index.key_at(i).as_str()) {
                Some(cp) => cp.len,
                None => 0,
            };
            if len > u64::MAX - total {
                proof {
                    lemma_live_total_mono(ks, idx, i + 1);
                }
                return Err(KvsError::Io(segment_too_large()));
            }
            total = total + len;
            i = i + 1;
        }
        proof {
            assert(ks.take(n as int) =~= ks);
        }
        let compaction_gen = self.current_gen + 1;
        let new_gen = self.current_gen + 2;
        let mut copies: Vec<CommandPos> = Vec::new();
        let mut new_pos: u64 = 0;
        let ghost mut new_seg: Seq<u8> = Seq::empty();
        i = 0;
        while i < n
            invariant
                old_self.wf(),
                disk == old_self.disk@,
                idx == old_self.index@,
                self.gens == old_self.gens,
                self.current_gen == old_self.current_gen,
                compaction_gen == old_self.current_gen + 1,
                self.index.wf(),
                ks == self.index.key_seq(),
                ks.no_duplicates(),
                n == ks.len(),
                i <= n,
                total == live_total(ks, idx),
                forall|a: int| 0 <= a < ks.len() ==> idx.contains_key(#[trigger] ks[a]),
                self.index@.dom() == idx.dom(),
                new_pos == live_total(ks.take(i as int), idx),
                new_pos <= total,
                new_seg == compacted(disk, idx, ks.take(i as int)),
                new_seg.len() == new_pos,
                copies@ == ks.take(i as int).map_values(|k: Seq<char>| idx[k]),
                forall|a: int|
                    0 <= a < i ==> {
                        let cp = #[trigger] self.index@[ks[a]];
                        &&& cp.gen == compaction_gen
                        &&& cp.pos == live_total(ks.take(a), idx)
                        &&& cp.len == idx[ks[a]].len
                        &&& cp.pos + cp.len <= new_seg.len()
                        &&& slice(new_seg, cp) == slice(disk[idx[ks[a]].gen], idx[ks[a]])
                    },
                forall|a: int| i <= a < n ==> #[trigger] self.index@[ks[a]] == idx[ks[a]],
                seg_ok(new_seg),
                forall|k: Seq<char>| #[trigger]
                    replay((Map::empty(), 0), compaction_gen, parse_records(new_seg, 0)->Some_0).0.contains_key(k)
                        <==> ks.take(i as int).contains(k),
                forall|a: int|
                    0 <= a < i ==> #[trigger] replay(
                        (Map::empty(), 0),
                        compaction_gen,
                        parse_records(new_seg, 0)->Some_0,
                    ).0[ks[a]] == self.index@[ks[a]],
            decreases n - i,
        {
            let cp = match self.index.get(self.index.key_at(i).as_str()) {
                Some(cp) => cp,
                None => CommandPos { gen: 0, pos: 0, len: 0 },
            };
            assert(cp == idx[ks[i as int]]);
            proof {
                assert(old_self.index@.contains_key(ks[i as int]));
                lemma_live_total_mono(ks, idx, i + 1);
                assert(ks.take(i + 1).drop_last() =~= ks.take(i as int));
                assert(ks.take(i + 1).last() == ks[i as int]);
            }
            copies.push(cp);
            let new_cp = CommandPos { gen: compaction_gen, pos: new_pos, len: cp.len };
            self.index.replace_at(i, new_cp);
            let ghost piece = slice(disk[cp.gen], cp);
            proof {
                let ki = ks[i as int];
                let pv = put_value(piece);
                lemma_put_len(piece, ki, pv);
                let r0 = replay((Map::empty(), 0), compaction_gen, parse_records(new_seg, 0)->Some_0).0;
                lemma_compact_step(new_seg, piece, Record::Put { key: ki, value: pv }, compaction_gen);
                let r1 = replay((Map::empty(), 0), compaction_gen, parse_records(new_seg + piece, 0)->Some_0).0;
                assert(r1 == r0.insert(ki, new_cp));
                assert forall|k: Seq<char>| #[trigger] r1.contains_key(k) <==> ks.take(i + 1).contains(k) by {
                    assert(ks.take(i + 1) =~= ks.take(i as int).push(ki));
                    let before = ks.take(i as int);
                    let after = ks.take(i + 1);
                    if before.contains(k) {
                        let a = choose|a: int| 0 <= a < before.len() && #[trigger] before[a] == k;
                        assert(after[a] == k);
                    }
                    if k == ki {
                        assert(after[i as int] == k);
                    }
                    if after.contains(k) && k != ki {
                        let a = choose|a: int| 0 <= a < after.len() && #[trigger] after[a] == k;
                        assert(before[a] == k);
                    }
                }
                assert forall|a: int| 0 <= a < i + 1 implies #[trigger] r1[ks[a]] == self.index@[ks[a]] by {
                    if a < i {
                        assert(ks[a] != ki);
                    }
                }
                assert forall|a: int| 0 <= a < i implies {
                    let c = #[trigger] self.index@[ks[a]];
                    slice(new_seg + piece, c) == slice(disk[idx[ks[a]].gen], idx[ks[a]])
                } by {
                    assert(ks[a] != ks[i as int]);
                    lemma_append_keeps(new_seg, piece, self.index@[ks[a]]);
                }
                assert(slice(new_seg + piece, new_cp) =~= piece);
                new_seg = new_seg + piece;
                assert(copies@ =~= ks.take(i + 1).map_values(|k: Seq<char>| idx[k]));
                assert forall|a: int| i + 1 <= a < n implies #[trigger] self.index@[ks[a]] == idx[ks[a]] by {
                    assert(ks[a] != ks[i as int]);
                }
            }
            new_pos = new_pos + cp.len;
            i = i + 1;
        }
        let mut stale_gens: Vec<u64> = Vec::new();
        let mut j: usize = 0;
        while j < self.gens.len()
            invariant
                self.gens@ == old_self.gens@,
                j <= self.gens@.len(),
                forall|g: u64| #[trigger]
                    stale_gens@.contains(g) <==> exists|a: int|
                        0 <= a < j && self.gens@[a] == g && g < compaction_gen,
            decreases self.gens@.len() - j,
        {
            let g = self.gens[j];
            let ghost prev = stale_gens@;
            if g < compaction_gen {
                stale_gens.push(g);
            }
            proof {
                assert forall|h: u64| #[trigger]
                    stale_gens@.contains(h) <==> exists|a: int|
                        0 <= a < j + 1 && self.gens@[a] == h && h < compaction_gen by {
                    if exists|a: int| 0 <= a < j + 1 && self.gens@[a] == h && h < compaction_gen {
                        let a = choose|a: int| 0 <= a < j + 1 && self.gens@[a] == h && h < compaction_gen;
                        if a < j {
                            assert(prev.contains(h));
                            let b = choose|b: int| 0 <= b < prev.len() && prev[b] == h;
                            assert(stale_gens@[b] == h);
                        } else {
                            assert(stale_gens@[stale_gens@.len() - 1] == h);
                        }
                    }
                    if stale_gens@.contains(h) {
                        let b = choose|b: int| 0 <= b < stale_gens@.len() && stale_gens@[b] == h;
                        if b < prev.len() {
                            assert(prev[b] == h);
                            assert(prev.contains(h));
                        } else {
                            assert(self.gens@[j as int] == h);
                        }
                    }
                }
            }
            j = j + 1;
        }
        let mut gens: Vec<u64> = Vec::new();
        gens.push(compaction_gen);
        gens.push(new_gen);
        self.gens = gens;
        self.current_gen = new_gen;
        self.writer_pos = 0;
        self.uncompacted = 0;
        self.disk = Ghost(Map::<u64, Seq<u8>>::empty().insert(compaction_gen, new_seg).insert(new_gen, Seq::empty()));
        proof {
            assert(ks.take(n as int) =~= ks);
            assert forall|g: u64| #[trigger] stale_gens@.contains(g) <==> disk.contains_key(g) by {
                if disk.contains_key(g) {
                    assert(old_self.gens@.contains(g));
                    let a = choose|a: int| 0 <= a < old_self.gens@.len() && old_self.gens@[a] == g;
                    assert(self.gens@.len() == 2);
                }
            }
            assert(self.gens@[0] == compaction_gen && self.gens@[1] == new_gen);
            assert forall|g: u64| #[trigger] self.disk@.contains_key(g) <==> self.gens@.contains(g) by {
                if g == compaction_gen {
                    assert(self.gens@[0] == g);
                }
                if g == new_gen {
                    assert(self.gens@[1] == g);
                }
            }
            lemma_empty_seg();
            let r_end = replay((Map::empty(), 0), compaction_gen, parse_records(new_seg, 0)->Some_0).0;
            assert(r_end =~= self.index@) by {
                assert forall|k: Seq<char>| r_end.contains_key(k) <==> self.index@.contains_key(k) by {
                    assert(ks.take(n as int) =~= ks);
                    assert(r_end.contains_key(k) <==> ks.contains(k));
                    assert(idx.contains_key(k) <==> ks.contains(k));
                }
                assert forall|k: Seq<char>| r_end.contains_key(k) implies r_end[k] == self.index@[k] by {
                    assert(ks.take(n as int) =~= ks);
                    let a = choose|a: int| 0 <= a < ks.len() && #[trigger] ks[a] == k;
                }
            }
            let one = seq![(compaction_gen, new_seg)];
            assert(self.listing() =~= one.push((new_gen, Seq::<u8>::empty())));
            lemma_replay_push_empty(one, new_gen);
            assert(one.drop_last() =~= Seq::<(u64, Seq<u8>)>::empty());
            assert(replay_all(Seq::<(u64, Seq<u8>)>::empty()) == (Map::<Seq<char>, CommandPos>::empty(), 0int));
            assert(one.last() == (compaction_gen, new_seg));
            assert(replay_all(one) == replay((Map::empty(), 0), compaction_gen, parse_records(new_seg, 0)->Some_0));
            assert forall|g: u64| #[trigger] self.disk@.contains_key(g) implies seg_ok(self.disk@[g]) by {
            }
            assert forall|k: Seq<char>| #[trigger] self.index@.contains_key(k) implies self.disk@.contains_key(
                self.index@[k].gen,
            ) && located(self.disk@[self.index@[k].gen], k, self.index@[k]) && self.index@[k].gen == compaction_gen
                && slice(new_seg, self.index@[k]) == slice(disk[idx[k].gen], idx[k]) by {
                assert(idx.contains_key(k));
                assert(ks.contains(k));
                let a = choose|a: int| 0 <= a < ks.len() && ks[a] == k;
                assert(self.index@[ks[a]].gen == compaction_gen);
                assert(old_self.index@.contains_key(k));
            }
            assert(self.contents() =~= old_self.contents()) by {
                assert forall|k: Seq<char>| #[trigger] self.contents().contains_key(k) implies self.contents()[k] == old_self.contents()[k] by {
                    assert(self.index@.contains_key(k));
                }
            }
        }
        Ok(Compaction { compaction_gen, active_gen: new_gen, copies, stale_gens })
    }

    /// Where the live record of `key` lies, if the store holds `key`; the
    /// caller reads those bytes and hands them to `read_value`.
    pub fn get(&self, key: &str) -> (r: Option<CommandPos>)
        ensures
            r == (if self.index().contains_key(key@) {
                Some(self.index()[key@])
            } else {
                None
            }),
    {
        self.index.get(key)
    }

    /// The value held by the record bytes `b` read from an indexed position.
    /// Fails with `UnexpectedCommandType` where they hold a `Remove` record,
    /// and with `Codec` where they do not hold exactly one record.
    pub fn read_value(b: &[u8]) -> (r: Result<String>)
        ensures
            match decode_at(b@, 0) {
                Some((Record::Put { value, .. }, e)) => if e == b@.len() {
                    r is Ok && r->Ok_0@ == value
                } else {
                    r is Err && r->Err_0 is Codec
                },
                Some((Record::Remove { .. }, e)) => if e == b@.len() {
                    r is Err && r->Err_0 is UnexpectedCommandType
                } else {
                    r is Err && r->Err_0 is Codec
                },
                None => r is Err && r->Err_0 is Codec,
            },
    {
        match Command::decode_at(b, 0) {
            Some((cmd, end)) => {
                if end != b.len() {
                    return Err(KvsError::Codec);
                }
                match cmd {
                    Command::Put { value, .. } => Ok(value),
                    Command::Remove { .. } => Err(KvsError::UnexpectedCommandType),
                }
            },
            None => Err(KvsError::Codec),
        }
    }
}

/// The empty segment decodes into no records.
proof fn lemma_empty_seg()
    ensures
        parse_records(Seq::empty(), 0) == Some(Seq::<(Record, int, int)>::empty()),
        seg_ok(Seq::empty()),
{
}

/// An empty segment at the end replays to nothing.
proof fn lemma_replay_push_empty(segs: Seq<(u64, Seq<u8>)>, g: u64)
    ensures
        replay_all(segs.push((g, Seq::empty()))) == replay_all(segs),
{
    lemma_empty_seg();
    assert(segs.push((g, Seq::empty())).drop_last() =~= segs);
}

/// With distinct generations, `disk_of` maps each to its bytes.
proof fn lemma_disk_of_at(segs: Seq<(u64, Seq<u8>)>, i: int)
    requires
        0 <= i < segs.len(),
        forall|a: int, c: int| 0 <= a < c < segs.len() ==> segs[a].0 < segs[c].0,
    ensures
        disk_of(segs).contains_key(segs[i].0),
        disk_of(segs)[segs[i].0] == segs[i].1,
    decreases segs.len(),
{
    if i < segs.len() - 1 {
        lemma_disk_of_at(segs.drop_last(), i);
        assert(segs.drop_last()[i] == segs[i]);
        assert(segs[i].0 < segs.last().0);
    }
}

/// The listing of a map's keys, each with its bytes, gives the map back.
proof fn lemma_disk_of_listing(gs: Seq<u64>, d: Map<u64, Seq<u8>>)
    ensures
        forall|g: u64| #[trigger] disk_of(listing_of(gs, d)).contains_key(g) <==> gs.contains(g),
        forall|g: u64| gs.contains(g) ==> #[trigger] disk_of(listing_of(gs, d))[g] == d[g],
    decreases gs.len(),
{
    let l = listing_of(gs, d);
    if gs.len() > 0 {
        let p = gs.drop_last();
        lemma_disk_of_listing(p, d);
        let dl = disk_of(listing_of(p, d));
        assert(l.drop_last() =~= listing_of(p, d));
        assert(l.last() == (gs.last(), d[gs.last()]));
        assert(disk_of(l) == dl.insert(gs.last(), d[gs.last()]));
        assert forall|g: u64| #[trigger] disk_of(l).contains_key(g) <==> gs.contains(g) by {
            assert(dl.contains_key(g) <==> p.contains(g));
            if p.contains(g) {
                let a = choose|a: int| 0 <= a < p.len() && p[a] == g;
                assert(gs[a] == g);
            }
            if gs.contains(g) && g != gs.last() {
                let a = choose|a: int| 0 <= a < gs.len() && gs[a] == g;
                assert(p[a] == g);
            }
            if g == gs.last() {
                assert(gs[gs.len() - 1] == g);
            }
        }
        assert forall|g: u64| gs.contains(g) implies #[trigger] disk_of(l)[g] == d[g] by {
            if g != gs.last() {
                let a = choose|a: int| 0 <= a < gs.len() && gs[a] == g;
                assert(p[a] == g);
                assert(p.contains(g));
                assert(dl[g] == d[g]);
            }
        }
    } else {
        assert forall|g: u64| #[trigger] disk_of(l).contains_key(g) <==> gs.contains(g) by {
        }
    }
}

/// Appending a framed record to the last segment of a listing appends one
/// step to its replay.
proof fn lemma_replay_append(gs: Seq<u64>, d: Map<u64, Seq<u8>>, x: Seq<u8>, r: Record)
    requires
        gs.len() > 0,
        forall|i: int, j: int| 0 <= i < j < gs.len() ==> gs[i] < gs[j],
        seg_ok(d[gs.last()]),
        framed(x, r),
        x.len() > 0,
    ensures
        replay_all(listing_of(gs, d.insert(gs.last(), d[gs.last()] + x))) == replay_step(
            replay_all(listing_of(gs, d)),
            gs.last(),
            (r, d[gs.last()].len() as int, (d[gs.last()].len() + x.len()) as int),
        ),
        seg_ok(d[gs.last()] + x),
{
    let cg = gs.last();
    let seg = d[cg];
    let d2 = d.insert(cg, seg + x);
    let l = listing_of(gs, d);
    let l2 = listing_of(gs, d2);
    let t = parse_records(seg, 0)->Some_0;
    lemma_parse_append(seg, x, r, 0, t);
    assert(l2.drop_last() =~= l.drop_last()) by {
        assert forall|i: int| 0 <= i < l.drop_last().len() implies l2.drop_last()[i] == l.drop_last()[i] by {
            assert(gs[i] < cg);
        }
    }
    let xr = (r, seg.len() as int, (seg.len() + x.len()) as int);
    assert(t.push(xr).drop_last() =~= t);
    assert(l2.last() == (cg, seg + x));
    assert(l.last() == (cg, seg));
}

/// A framed `Put` record is at least 25 bytes long.
proof fn lemma_put_len(b: Seq<u8>, k: Seq<char>, v: Seq<char>)
    requires
        framed(b, Record::Put { key: k, value: v }),
    ensures
        b.len() >= 25,
{
    lemma_framed_alone(b, Record::Put { key: k, value: v });
}

/// Appending a framed record to a segment replayed on its own adds one step.
proof fn lemma_compact_step(seg: Seq<u8>, piece: Seq<u8>, r: Record, g: u64)
    requires
        seg_ok(seg),
        framed(piece, r),
        piece.len() > 0,
    ensures
        seg_ok(seg + piece),
        replay((Map::empty(), 0), g, parse_records(seg + piece, 0)->Some_0) == replay_step(
            replay((Map::empty(), 0), g, parse_records(seg, 0)->Some_0),
            g,
            (r, seg.len() as int, (seg.len() + piece.len()) as int),
        ),
{
    let t = parse_records(seg, 0)->Some_0;
    lemma_parse_append(seg, piece, r, 0, t);
    let xr = (r, seg.len() as int, (seg.len() + piece.len()) as int);
    assert(t.push(xr).drop_last() =~= t);
}

/// The summed lengths of a prefix of the keys are at most those of all.
proof fn lemma_live_total_mono(ks: Seq<Seq<char>>, idx: Map<Seq<char>, CommandPos>, i: int)
    requires
        0 <= i <= ks.len(),
    ensures
        0 <= live_total(ks.take(i), idx) <= live_total(ks, idx),
    decreases ks.len(),
{
    if i < ks.len() {
        lemma_live_total_mono(ks.drop_last(), idx, i);
        assert(ks.drop_last().take(i) =~= ks.take(i));
    } else {
        assert(ks.take(i) =~= ks);
        if ks.len() > 0 {
            lemma_live_total_mono(ks.drop_last(), idx, i - 1);
            assert(ks.drop_last().take(i - 1) =~= ks.drop_last());
        }
    }
}

/// Bytes appended after a segment leave the records within it as they were.
proof fn lemma_append_keeps(seg: Seq<u8>, extra: Seq<u8>, cp: CommandPos)
    requires
        cp.pos + cp.len <= seg.len(),
    ensures
        slice(seg + extra, cp) == slice(seg, cp),
{
    assert(slice(seg + extra, cp) =~= slice(seg, cp));
}

/// The value read back from an encoded `Put` record is the value written.
proof fn lemma_put_value_encode(key: Seq<char>, value: Seq<char>)
    requires
        (Record::Put { key, value }).reads_back(),
    ensures
        framed(encode(Record::Put { key, value }), Record::Put { key, value }),
        put_value(encode(Record::Put { key, value })) == value,
{
    let r = Record::Put { key, value };
    lemma_encode_framed(r);
    lemma_framed_alone(encode(r), r);
}

/// The index a replay builds does not depend on the tally it starts from, and
/// the tally it ends with is that start plus what the records add.
proof fn lemma_replay_shift(
    m: Map<Seq<char>, CommandPos>,
    s: int,
    gen: u64,
    recs: Seq<(Record, int, int)>,
)
    ensures
        replay((m, s), gen, recs).0 == replay((m, 0), gen, recs).0,
        replay((m, s), gen, recs).1 == s + replay((m, 0), gen, recs).1,
    decreases recs.len(),
{
    if recs.len() > 0 {
        lemma_replay_shift(m, s, gen, recs.drop_last());
    }
}

proof fn lemma_disk_of_dom(segs: Seq<(u64, Seq<u8>)>)
    ensures
        forall|g: u64| #[trigger]
            disk_of(segs).contains_key(g) <==> exists|a: int| 0 <= a < segs.len() && segs[a].0 == g,
    decreases segs.len(),
{
    if segs.len() > 0 {
        lemma_disk_of_dom(segs.drop_last());
        assert forall|g: u64| #[trigger]
            disk_of(segs).contains_key(g) <==> exists|a: int| 0 <= a < segs.len() && segs[a].0 == g by {
            if disk_of(segs.drop_last()).contains_key(g) {
                let a = choose|a: int| 0 <= a < segs.drop_last().len() && segs.drop_last()[a].0 == g;
                assert(segs[a].0 == g);
            }
            if exists|a: int| 0 <= a < segs.len() && segs[a].0 == g {
                let a = choose|a: int| 0 <= a < segs.len() && segs[a].0 == g;
                if a < segs.len() - 1 {
                    assert(segs.drop_last()[a].0 == g);
                }
            }
        }
    }
}

} // verus!
