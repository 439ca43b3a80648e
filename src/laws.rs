//! Laws of the store, stated over the models that the operations' contracts
//! use: `KvStore::contents`, the index, and the stale-byte counter.
//!
//! `set` and `remove` change the contents exactly as `apply` says, and a live
//! key's location holds its value (`law_get_reads_contents`); the laws over
//! sequences of writes then say what `get` returns after them.
use vstd::prelude::*;
use crate::codec::{Record, decode_at};
use crate::kv::{
    KvStore, COMPACTION_THRESHOLD, all_parse, cap, len_or_zero, opened_from, slice,
};

verus! {

/// What a successful call does to the contents: a `set`, a `remove`, or a
/// call that keeps them (`get`, `compact`).
pub enum Write {
    Put(Seq<char>, Seq<char>),
    Del(Seq<char>),
    Keep,
}

/// The write touches key `k`.
pub open spec fn writes_to(w: Write, k: Seq<char>) -> bool {
    match w {
        Write::Put(q, _) => q == k,
        Write::Del(q) => q == k,
        Write::Keep => false,
    }
}

/// What one write does to the contents; `KvStore::set` and `KvStore::remove`
/// ensure exactly this.
pub open spec fn apply(c: Map<Seq<char>, Seq<char>>, w: Write) -> Map<Seq<char>, Seq<char>> {
    match w {
        Write::Put(k, v) => c.insert(k, v),
        Write::Del(k) => c.remove(k),
        Write::Keep => c,
    }
}

/// The writes applied in order.
pub open spec fn apply_all(c: Map<Seq<char>, Seq<char>>, ws: Seq<Write>) -> Map<
    Seq<char>,
    Seq<char>,
>
    decreases ws.len(),
{
    if ws.len() == 0 {
        c
    } else {
        apply(apply_all(c, ws.drop_last()), ws.last())
    }
}

/// The last of the writes that touches `k`.
pub open spec fn last_write_to(ws: Seq<Write>, k: Seq<char>) -> Option<Write>
    decreases ws.len(),
{
    if ws.len() == 0 {
        None
    } else if writes_to(ws.last(), k) {
        Some(ws.last())
    } else {
        last_write_to(ws.drop_last(), k)
    }
}

/// On a well-formed store, `get` finds a location exactly for the live keys,
/// and the bytes there hold one `Put` record of the key with its value, so
/// `read_value` on them gives that value.
pub proof fn law_get_reads_contents(s: &KvStore, k: Seq<char>)
    requires
        s.wf(),
    ensures
        s.index().contains_key(k) <==> s.contents().contains_key(k),
        s.contents().contains_key(k) ==> {
            let cp = s.index()[k];
            let b = slice(s.disk()[cp.gen], cp);
            decode_at(b, 0) == Some(
                (Record::Put { key: k, value: s.contents()[k] }, b.len() as int),
            )
        },
{
    if s.contents().contains_key(k) {
        s.lemma_located(k);
    }
}

/// Persistence: the segments of a well-formed store, in ascending order of
/// generation, meet what `open` asks and all decode, so `open` succeeds on
/// them (while a generation is left for the new active segment); and a store
/// that `open` makes of them holds the same contents, so `get` gives the same
/// result for every key.
pub proof fn law_persistence(s: &KvStore, s2: KvStore)
    requires
        s.wf(),
    ensures
        forall|i: int, j: int|
            0 <= i < j < s.listing().len() ==> s.listing()[i].0 < s.listing()[j].0,
        s.active_gen() < u64::MAX ==> forall|i: int|
            0 <= i < s.listing().len() ==> #[trigger] s.listing()[i].0 < u64::MAX,
        all_parse(s.listing()),
        opened_from(s.listing(), s2) ==> s2.contents() == s.contents(),
{
    s.lemma_listing();
    if opened_from(s.listing(), s2) {
        s.lemma_reopen(s2);
    }
}

/// Round trip: after any sequence of writes, a key holds the value of the
/// last `set` to it, is absent where the last write to it was a `remove`,
/// and is as it was where no write touched it.
pub proof fn law_round_trip(c: Map<Seq<char>, Seq<char>>, ws: Seq<Write>, k: Seq<char>)
    ensures
        match last_write_to(ws, k) {
            Some(Write::Put(_, v)) => apply_all(c, ws).contains_key(k) && apply_all(c, ws)[k] == v,
            Some(Write::Del(_)) => !apply_all(c, ws).contains_key(k),
            _ => (apply_all(c, ws).contains_key(k) == c.contains_key(k)) && (c.contains_key(k)
                ==> apply_all(c, ws)[k] == c[k]),
        },
    decreases ws.len(),
{
    if ws.len() > 0 {
        law_round_trip(c, ws.drop_last(), k);
    }
}

/// Round trip over calls: in a run of stores, each the result of a
/// successful call on the one before (`set`, `remove`, `get`, `compact`,
/// which ensure `apply` of their write on the contents), the last store holds
/// the writes applied in order: a key holds the value of its last `set`, is
/// absent after its last `remove`, and is as in the first store where no call
/// wrote it. `get` then finds exactly that (`law_get_reads_contents`).
pub proof fn law_round_trip_calls(states: Seq<KvStore>, ws: Seq<Write>, k: Seq<char>)
    requires
        states.len() == ws.len() + 1,
        forall|i: int|
            0 <= i < ws.len() ==> states[i + 1].contents() == apply(
                states[i].contents(),
                #[trigger] ws[i],
            ),
    ensures
        states.last().contents() == apply_all(states[0].contents(), ws),
        match last_write_to(ws, k) {
            Some(Write::Put(_, v)) => states.last().contents().contains_key(k)
                && states.last().contents()[k] == v,
            Some(Write::Del(_)) => !states.last().contents().contains_key(k),
            _ => (states.last().contents().contains_key(k) == states[0].contents().contains_key(k))
                && (states[0].contents().contains_key(k) ==> states.last().contents()[k]
                == states[0].contents()[k]),
        },
{
    lemma_calls_prefix(states, ws, ws.len() as int);
    assert(ws.take(ws.len() as int) =~= ws);
    law_round_trip(states[0].contents(), ws, k);
    lemma_last_write_kind(ws, k);
}

proof fn lemma_last_write_kind(ws: Seq<Write>, k: Seq<char>)
    ensures
        !(last_write_to(ws, k) matches Some(Write::Keep)),
    decreases ws.len(),
{
    if ws.len() > 0 {
        lemma_last_write_kind(ws.drop_last(), k);
    }
}

proof fn lemma_calls_prefix(states: Seq<KvStore>, ws: Seq<Write>, n: int)
    requires
        states.len() == ws.len() + 1,
        0 <= n <= ws.len(),
        forall|i: int|
            0 <= i < ws.len() ==> states[i + 1].contents() == apply(
                states[i].contents(),
                #[trigger] ws[i],
            ),
    ensures
        states[n].contents() == apply_all(states[0].contents(), ws.take(n)),
    decreases n,
{
    if n > 0 {
        lemma_calls_prefix(states, ws, n - 1);
        assert(ws.take(n).drop_last() =~= ws.take(n - 1));
        assert(states[n].contents() == apply(states[n - 1].contents(), ws[n - 1]));
    } else {
        assert(ws.take(0) =~= Seq::<Write>::empty());
    }
}

/// Overwrite and reopen: after `set(k, v1)` and `set(k, v2)` succeed, a store
/// reopened on the segments holds `v2` for `k`.
pub proof fn law_overwrite_reopen(
    s0: KvStore,
    s1: KvStore,
    s2: KvStore,
    s3: KvStore,
    k: Seq<char>,
    v1: Seq<char>,
    v2: Seq<char>,
)
    requires
        s1.contents() == apply(s0.contents(), Write::Put(k, v1)),
        s2.contents() == apply(s1.contents(), Write::Put(k, v2)),
        s2.wf(),
        opened_from(s2.listing(), s3),
    ensures
        s3.contents().contains_key(k),
        s3.contents()[k] == v2,
{
    law_persistence(&s2, s3);
}

/// Overwrite: `set(k, v1)` then `set(k, v2)` leaves `k` holding `v2`.
pub proof fn law_overwrite(c: Map<Seq<char>, Seq<char>>, k: Seq<char>, v1: Seq<char>, v2: Seq<char>)
    ensures
        apply_all(c, seq![Write::Put(k, v1), Write::Put(k, v2)]).contains_key(k),
        apply_all(c, seq![Write::Put(k, v1), Write::Put(k, v2)])[k] == v2,
{
    let ws = seq![Write::Put(k, v1), Write::Put(k, v2)];
    assert(ws.drop_last().drop_last() =~= Seq::<Write>::empty());
}

/// Remove: after `set(k, v)` then `remove(k)` the store does not hold `k`, so
/// `get(k)` finds nothing and a second `remove(k)` fails with `KeyNotFound`.
pub proof fn law_remove(c: Map<Seq<char>, Seq<char>>, k: Seq<char>, v: Seq<char>)
    ensures
        !apply_all(c, seq![Write::Put(k, v), Write::Del(k)]).contains_key(k),
{
    let ws = seq![Write::Put(k, v), Write::Del(k)];
    assert(ws.drop_last().drop_last() =~= Seq::<Write>::empty());
}

/// A key that no `set` wrote is not held by a store that started empty, so
/// `remove` on it fails with `KeyNotFound`.
pub proof fn law_never_set(ws: Seq<Write>, k: Seq<char>)
    requires
        forall|i: int| 0 <= i < ws.len() ==> !(#[trigger] ws[i] matches Write::Put(q, _) && q == k),
    ensures
        !apply_all(Map::empty(), ws).contains_key(k),
    decreases ws.len(),
{
    if ws.len() > 0 {
        let p = ws.drop_last();
        assert forall|i: int| 0 <= i < p.len() implies !(#[trigger] p[i] matches Write::Put(q, _) && q
            == k) by {
            assert(p[i] == ws[i]);
        }
        law_never_set(p, k);
        assert(!(ws[ws.len() - 1] matches Write::Put(q, _) && q == k));
    }
}

/// Overwriting or removing a live key makes at least 25 bytes stale: a `Put`
/// record is never shorter.
pub proof fn law_overwrite_counts_stale(s: &KvStore, k: Seq<char>)
    requires
        s.wf(),
        s.contents().contains_key(k),
    ensures
        len_or_zero(s.index(), k) >= 25,
{
    s.lemma_located(k);
}

/// The stale-byte counter after adding each of `adds` in turn, saturating.
pub open spec fn after_adds(s: int, adds: Seq<int>) -> int
    decreases adds.len(),
{
    if adds.len() == 0 {
        s
    } else {
        cap(after_adds(s, adds.drop_last()) + adds.last()) as int
    }
}

proof fn lemma_after_adds(s: int, adds: Seq<int>)
    requires
        0 <= s,
        forall|i: int| 0 <= i < adds.len() ==> #[trigger] adds[i] >= 25,
    ensures
        after_adds(s, adds) >= if s + 25 * adds.len() > u64::MAX {
            u64::MAX as int
        } else {
            s + 25 * adds.len()
        },
    decreases adds.len(),
{
    if adds.len() > 0 {
        let p = adds.drop_last();
        assert forall|i: int| 0 <= i < p.len() implies #[trigger] p[i] >= 25 by {
            assert(p[i] == adds[i]);
        }
        lemma_after_adds(s, p);
        assert(adds.last() >= 25);
    }
}

/// Compaction bound: overwrites of live keys, each adding at least 25 stale
/// bytes, push the counter past the compaction threshold after at most
/// `COMPACTION_THRESHOLD / 25 + 1` of them, whatever the keys; the store then
/// compacts within that `set`, which leaves only the live records on disk and
/// the counter at 0.
pub proof fn law_overwrites_force_compaction(s: u64, adds: Seq<int>)
    requires
        forall|i: int| 0 <= i < adds.len() ==> #[trigger] adds[i] >= 25,
        adds.len() > COMPACTION_THRESHOLD / 25,
    ensures
        after_adds(s as int, adds) > COMPACTION_THRESHOLD,
{
    lemma_after_adds(s as int, adds);
}

} // verus!
