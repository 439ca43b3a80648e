//! The record codec: each mutation is written as one self-delimiting JSON
//! object, `{"Set":{"key":K,"value":V}}` or `{"Remove":{"key":K}}`, and the
//! records of a segment follow each other with nothing between them.
//!
//! The framing is the store's own and is decoded here; the string literals
//! `K` and `V` are written and read by serde_json.
use vstd::prelude::*;

verus! {

/// What a record says, as mathematical values.
pub enum Record {
    Put { key: Seq<char>, value: Seq<char> },
    Remove { key: Seq<char> },
}

impl Record {
    pub open spec fn key(self) -> Seq<char> {
        match self {
            Record::Put { key, .. } => key,
            Record::Remove { key } => key,
        }
    }

    /// Every string of the record reads back from its JSON literal.
    pub open spec fn reads_back(self) -> bool {
        match self {
            Record::Put { key, value } => reads_back(key) && reads_back(value),
            Record::Remove { key } => reads_back(key),
        }
    }
}

/// One mutation of the store, as written to a log segment.
#[derive(Debug, Clone, PartialEq, Eq)]
pub enum Command {
    Put { key: String, value: String },
    Remove { key: String },
}

impl View for Command {
    type V = Record;

    open spec fn view(&self) -> Record {
        match self {
            Command::Put { key, value } => Record::Put { key: key@, value: value@ },
            Command::Remove { key } => Record::Remove { key: key@ },
        }
    }
}

/// The bytes that serde_json writes for a string: one JSON string literal.
pub uninterp spec fn json_text(s: Seq<char>) -> Seq<u8>;

/// What serde_json's stream reader takes from the front of `b` when it reads
/// one string: the string, and the number of bytes it consumed.
pub uninterp spec fn json_string_prefix(b: Seq<u8>) -> Option<(Seq<char>, nat)>;

/// The literal written for `s` is read back as `s`, whatever follows it.
pub open spec fn reads_back(s: Seq<char>) -> bool {
    forall|rest: Seq<u8>|
        #[trigger] json_string_prefix(json_text(s) + rest) == Some((s, json_text(s).len()))
}

/// Relies on serde_json::to_vec applied to a `str`: writing into a `Vec` it
/// cannot fail; it writes the string as one JSON string literal, two quotes
/// around at most six bytes for each character (a `\u00XX` escape), and
/// serde_json's stream reader reads that literal back as the same string,
/// stopping right after its closing quote.
#[verifier::external_body]
fn json_quote(s: &str) -> (r: core::result::Result<Vec<u8>, serde_json::Error>)
    ensures
        r is Ok,
        r is Ok ==> r->Ok_0@ == json_text(s@),
        r is Ok ==> 2 <= r->Ok_0@.len() <= 2 + 6 * s@.len(),
        r is Ok ==> forall|rest: Seq<u8>|
            #[trigger] json_string_prefix(r->Ok_0@ + rest) == Some((s@, r->Ok_0@.len())),
{
    serde_json::to_vec(s)
}

/// Relies on serde_json's StreamDeserializer over `b[at..]`: `next` reads one
/// `String`, and `byte_offset` then gives the number of bytes it consumed. A
/// string literal ends at its closing quote, so the bytes consumed read the
/// same whatever follows them.
#[verifier::external_body]
fn json_string_at(b: &[u8], at: usize) -> (r: Option<(String, usize)>)
    requires
        at <= b@.len(),
    ensures
        match r {
            Some((s, n)) => json_string_prefix(b@.subrange(at as int, b@.len() as int)) == Some(
                (s@, n as nat),
            ) && n <= b@.len() - at && forall|rest: Seq<u8>|
                #[trigger] json_string_prefix(b@.subrange(at as int, at + n) + rest) == Some(
                    (s@, n as nat),
                ),
            None => json_string_prefix(b@.subrange(at as int, b@.len() as int)) is None,
        },
{
    let mut stream = serde_json::Deserializer::from_slice(&b[at..]).into_iter::<String>();
    match stream.next() {
        Some(Ok(s)) => Some((s, stream.byte_offset())),
        _ => None,
    }
}

/// `{"Set":{"key":`
pub open spec fn set_open() -> Seq<u8> {
    seq![123u8, 34u8, 83u8, 101u8, 116u8, 34u8, 58u8, 123u8, 34u8, 107u8, 101u8, 121u8, 34u8, 58u8]
}

/// `{"Remove":{"key":`
pub open spec fn remove_open() -> Seq<u8> {
    seq![
        123u8, 34u8, 82u8, 101u8, 109u8, 111u8, 118u8, 101u8, 34u8, 58u8, 123u8, 34u8, 107u8,
        101u8, 121u8, 34u8, 58u8,
    ]
}

/// `,"value":`
pub open spec fn value_sep() -> Seq<u8> {
    seq![44u8, 34u8, 118u8, 97u8, 108u8, 117u8, 101u8, 34u8, 58u8]
}

/// `}}`
pub open spec fn close() -> Seq<u8> {
    seq![125u8, 125u8]
}

/// A bound on the length of a record's bytes: its framing, and at most six
/// bytes for each character of its strings.
pub open spec fn encoded_len_bound(r: Record) -> nat {
    match r {
        Record::Put { key, value } => 29 + 6 * (key.len() + value.len()),
        Record::Remove { key } => 21 + 6 * key.len(),
    }
}

/// The bytes of a record.
pub open spec fn encode(r: Record) -> Seq<u8> {
    match r {
        Record::Put { key, value } => set_open() + json_text(key) + value_sep() + json_text(value)
            + close(),
        Record::Remove { key } => remove_open() + json_text(key) + close(),
    }
}

/// `lit` stands in `b` at `at`.
pub open spec fn has_at(b: Seq<u8>, at: int, lit: Seq<u8>) -> bool {
    0 <= at && at + lit.len() <= b.len() && b.subrange(at, at + lit.len()) == lit
}

/// The string literal that starts at `at`, and its length.
pub open spec fn string_at(b: Seq<u8>, at: int) -> Option<(Seq<char>, nat)> {
    json_string_prefix(b.subrange(at, b.len() as int))
}

/// The record that starts at `at` in `b`, and the offset just past it.
pub open spec fn decode_at(b: Seq<u8>, at: int) -> Option<(Record, int)> {
    if has_at(b, at, set_open()) {
        let k_at = at + set_open().len();
        match string_at(b, k_at) {
            Some((key, n)) => {
                let sep = k_at + n;
                if has_at(b, sep, value_sep()) {
                    let v_at = sep + value_sep().len();
                    match string_at(b, v_at) {
                        Some((value, m)) => {
                            if has_at(b, v_at + m, close()) {
                                Some((Record::Put { key, value }, v_at + m + close().len()))
                            } else {
                                None
                            }
                        },
                        None => None,
                    }
                } else {
                    None
                }
            },
            None => None,
        }
    } else if has_at(b, at, remove_open()) {
        let k_at = at + remove_open().len();
        match string_at(b, k_at) {
            Some((key, n)) => {
                if has_at(b, k_at + n, close()) {
                    Some((Record::Remove { key }, k_at + n + close().len()))
                } else {
                    None
                }
            },
            None => None,
        }
    } else {
        None
    }
}

/// `s` holds exactly the record `r`, and reads as `r` wherever it is placed.
pub open spec fn framed(s: Seq<u8>, r: Record) -> bool {
    forall|pre: Seq<u8>, rest: Seq<u8>|
        #[trigger] decode_at(pre + s + rest, pre.len() as int) == Some((r, pre.len() + s.len() as int))
}

/// The literal `s` at `at` in `b`, `n` bytes long, reads as `v` whatever follows.
pub open spec fn literal_at(b: Seq<u8>, at: int, n: int, v: Seq<char>) -> bool {
    &&& 0 <= at
    &&& 0 <= n
    &&& at + n <= b.len()
    &&& forall|rest: Seq<u8>|
        #[trigger] json_string_prefix(b.subrange(at, at + n) + rest) == Some((v, n as nat))
}

proof fn lemma_frame_put(b: Seq<u8>, at: int, n: int, m: int, key: Seq<char>, value: Seq<char>)
    requires
        has_at(b, at, set_open()),
        literal_at(b, at + 14, n, key),
        has_at(b, at + 14 + n, value_sep()),
        literal_at(b, at + 23 + n, m, value),
        has_at(b, at + 23 + n + m, close()),
    ensures
        framed(b.subrange(at, at + 25 + n + m), Record::Put { key, value }),
{
    let s = b.subrange(at, at + 25 + n + m);
    assert forall|pre: Seq<u8>, rest: Seq<u8>|
        #[trigger] decode_at(pre + s + rest, pre.len() as int) == Some(
            (Record::Put { key, value }, pre.len() + s.len() as int),
        ) by {
        let bb = pre + s + rest;
        let p = pre.len() as int;
        assert(bb.subrange(p, p + 14) =~= b.subrange(at, at + 14));
        let kl = b.subrange(at + 14, at + 14 + n);
        let tail1 = b.subrange(at + 14 + n, at + 25 + n + m) + rest;
        assert(bb.subrange(p + 14, bb.len() as int) =~= kl + tail1);
        assert(json_string_prefix(kl + tail1) == Some((key, n as nat)));
        assert(bb.subrange(p + 14 + n, p + 23 + n) =~= b.subrange(at + 14 + n, at + 23 + n));
        let vl = b.subrange(at + 23 + n, at + 23 + n + m);
        let tail2 = b.subrange(at + 23 + n + m, at + 25 + n + m) + rest;
        assert(bb.subrange(p + 23 + n, bb.len() as int) =~= vl + tail2);
        assert(json_string_prefix(vl + tail2) == Some((value, m as nat)));
        assert(bb.subrange(p + 23 + n + m, p + 25 + n + m) =~= b.subrange(
            at + 23 + n + m,
            at + 25 + n + m,
        ));
    }
}

proof fn lemma_frame_remove(b: Seq<u8>, at: int, n: int, key: Seq<char>)
    requires
        !has_at(b, at, set_open()),
        has_at(b, at, remove_open()),
        literal_at(b, at + 17, n, key),
        has_at(b, at + 17 + n, close()),
    ensures
        framed(b.subrange(at, at + 19 + n), Record::Remove { key }),
{
    let s = b.subrange(at, at + 19 + n);
    assert forall|pre: Seq<u8>, rest: Seq<u8>|
        #[trigger] decode_at(pre + s + rest, pre.len() as int) == Some(
            (Record::Remove { key }, pre.len() + s.len() as int),
        ) by {
        let bb = pre + s + rest;
        let p = pre.len() as int;
        assert(bb.subrange(p, p + 14)[2] == b.subrange(at, at + 17)[2]);
        assert(remove_open()[2] != set_open()[2]);
        assert(bb.subrange(p, p + 17) =~= b.subrange(at, at + 17));
        let kl = b.subrange(at + 17, at + 17 + n);
        let tail = b.subrange(at + 17 + n, at + 19 + n) + rest;
        assert(bb.subrange(p + 17, bb.len() as int) =~= kl + tail);
        assert(json_string_prefix(kl + tail) == Some((key, n as nat)));
        assert(bb.subrange(p + 17 + n, p + 19 + n) =~= b.subrange(at + 17 + n, at + 19 + n));
    }
}

/// A framed record reads back from exactly its own bytes.
pub proof fn lemma_framed_alone(s: Seq<u8>, r: Record)
    requires
        framed(s, r),
    ensures
        decode_at(s, 0) == Some((r, s.len() as int)),
{
    let e = Seq::<u8>::empty();
    assert(e + s + e =~= s);
    assert(decode_at(e + s + e, 0) == Some((r, s.len() as int)));
}

/// An encoded record is framed.
pub proof fn lemma_encode_framed(r: Record)
    requires
        r.reads_back(),
    ensures
        framed(encode(r), r),
{
    assert forall|pre: Seq<u8>, rest: Seq<u8>|
        #[trigger] decode_at(pre + encode(r) + rest, pre.len() as int) == Some(
            (r, pre.len() + encode(r).len() as int),
        ) by {
        lemma_decode_encode(r, pre, rest);
    }
}

fn set_open_bytes() -> (r: Vec<u8>)
    ensures
        r@ == set_open(),
{
    let r: Vec<u8> = vec![123, 34, 83, 101, 116, 34, 58, 123, 34, 107, 101, 121, 34, 58];
    assert(r@ =~= set_open());
    r
}

fn remove_open_bytes() -> (r: Vec<u8>)
    ensures
        r@ == remove_open(),
{
    let r: Vec<u8> = vec![123, 34, 82, 101, 109, 111, 118, 101, 34, 58, 123, 34, 107, 101, 121, 34, 58];
    assert(r@ =~= remove_open());
    r
}

fn value_sep_bytes() -> (r: Vec<u8>)
    ensures
        r@ == value_sep(),
{
    let r: Vec<u8> = vec![44, 34, 118, 97, 108, 117, 101, 34, 58];
    assert(r@ =~= value_sep());
    r
}

fn close_bytes() -> (r: Vec<u8>)
    ensures
        r@ == close(),
{
    let r: Vec<u8> = vec![125, 125];
    assert(r@ =~= close());
    r
}

/// Whether `lit` stands in `b` at `at`.
fn matches_at(b: &[u8], at: usize, lit: &Vec<u8>) -> (r: bool)
    ensures
        r == has_at(b@, at as int, lit@),
        r ==> at + lit@.len() <= b@.len(),
{
    let blen = b.len();
    if at > blen || lit.len() > blen - at {
        return false;
    }
    let mut i: usize = 0;
    while i < lit.len()
        invariant
            blen == b@.len(),
            at <= b@.len(),
            lit@.len() <= b@.len() - at,
            i <= lit@.len(),
            forall|j: int| 0 <= j < i ==> b@[at + j] == lit@[j],
        decreases lit@.len() - i,
    {
        if b[at + i] != lit[i] {
            assert(b@.subrange(at as int, at + lit@.len())[i as int] != lit@[i as int]);
            return false;
        }
        i = i + 1;
    }
    assert(b@.subrange(at as int, at + lit@.len()) =~= lit@);
    true
}

impl Command {
    /// A record that sets `key` to `value`.
    pub fn set(key: String, value: String) -> (r: Command)
        ensures
            r@ == (Record::Put { key: key@, value: value@ }),
    {
        Command::Put { key, value }
    }

    /// A `Remove` record.
    pub fn remove(key: String) -> (r: Command)
        ensures
            r@ == (Record::Remove { key: key@ }),
    {
        Command::Remove { key }
    }

    /// The key that the record is about.
    pub fn key(&self) -> (r: &String)
        ensures
            r@ == self@.key(),
    {
        match self {
            Command::Put { key, .. } => key,
            Command::Remove { key } => key,
        }
    }

    /// The bytes of the record.
    pub fn encode(&self) -> (r: core::result::Result<Vec<u8>, serde_json::Error>)
        ensures
            r is Ok,
            r is Ok ==> r->Ok_0@ == encode(self@) && self@.reads_back(),
            r is Ok ==> encode(self@).len() <= encoded_len_bound(self@),
    {
        match self {
            Command::Put { key, value } => {
                let mut k = json_quote(key.as_str())?;
                let mut v = json_quote(value.as_str())?;
                proof {
                    assert(reads_back(key@));
                    assert(reads_back(value@));
                }
                let mut out = set_open_bytes();
                out.append(&mut k);
                let mut sep = value_sep_bytes();
                out.append(&mut sep);
                out.append(&mut v);
                let mut end = close_bytes();
                out.append(&mut end);
                Ok(out)
            },
            Command::Remove { key } => {
                let mut k = json_quote(key.as_str())?;
                proof {
                    assert(reads_back(key@));
                }
                let mut out = remove_open_bytes();
                out.append(&mut k);
                let mut end = close_bytes();
                out.append(&mut end);
                Ok(out)
            },
        }
    }

    /// Decodes the record that starts at `at` in `b`; gives it with the offset
    /// just past it, or `None` where no record starts there.
    pub fn decode_at(b: &[u8], at: usize) -> (r: Option<(Command, usize)>)
        requires
            at <= b@.len(),
        ensures
            match r {
                Some((c, end)) => decode_at(b@, at as int) == Some((c@, end as int)) && at < end
                    && end <= b@.len() && framed(b@.subrange(at as int, end as int), c@),
                None => decode_at(b@, at as int) is None,
            },
    {
        let blen = b.len();
        let so = set_open_bytes();
        if matches_at(b, at, &so) {
            assert(at + so@.len() <= blen);
            let k_at = at + so.len();
            match json_string_at(b, k_at) {
                Some((key, n)) => {
                    let sep = k_at + n;
                    let vs = value_sep_bytes();
                    if matches_at(b, sep, &vs) {
                        let v_at = sep + vs.len();
                        match json_string_at(b, v_at) {
                            Some((value, m)) => {
                                let cl = close_bytes();
                                if matches_at(b, v_at + m, &cl) {
                                    proof {
                                        lemma_frame_put(b@, at as int, n as int, m as int, key@, value@);
                                    }
                                    Some((Command::Put { key, value }, v_at + m + cl.len()))
                                } else {
                                    None
                                }
                            },
                            None => None,
                        }
                    } else {
                        None
                    }
                },
                None => None,
            }
        } else {
            let ro = remove_open_bytes();
            if matches_at(b, at, &ro) {
                assert(at + ro@.len() <= blen);
                let k_at = at + ro.len();
                match json_string_at(b, k_at) {
                    Some((key, n)) => {
                        let cl = close_bytes();
                        if matches_at(b, k_at + n, &cl) {
                            proof {
                                lemma_frame_remove(b@, at as int, n as int, key@);
                            }
                            Some((Command::Remove { key }, k_at + n + cl.len()))
                        } else {
                            None
                        }
                    },
                    None => None,
                }
            } else {
                None
            }
        }
    }
}

/// A record reads back from its own bytes, whatever stands before or after
/// them.
pub proof fn lemma_decode_encode(r: Record, pre: Seq<u8>, rest: Seq<u8>)
    requires
        r.reads_back(),
    ensures
        decode_at(pre + encode(r) + rest, pre.len() as int) == Some(
            (r, pre.len() + encode(r).len() as int),
        ),
{
    let b = pre + encode(r) + rest;
    let at = pre.len() as int;
    match r {
        Record::Put { key, value } => {
            let kt = json_text(key);
            let vt = json_text(value);
            assert(b.subrange(at, at + 14) =~= set_open());
            let k_at = at + 14;
            assert(b.subrange(k_at, b.len() as int) =~= kt + (value_sep() + vt + close() + rest));
            assert(json_string_prefix(kt + (value_sep() + vt + close() + rest)) == Some(
                (key, kt.len()),
            ));
            let sep = k_at + kt.len();
            assert(b.subrange(sep, sep + 9) =~= value_sep());
            let v_at = sep + 9;
            assert(b.subrange(v_at, b.len() as int) =~= vt + (close() + rest));
            assert(json_string_prefix(vt + (close() + rest)) == Some((value, vt.len())));
            assert(b.subrange(v_at + vt.len(), v_at + vt.len() + 2) =~= close());
        },
        Record::Remove { key } => {
            let kt = json_text(key);
            assert(b.subrange(at, at + 14)[2] != set_open()[2]);
            assert(b.subrange(at, at + 17) =~= remove_open());
            let k_at = at + 17;
            assert(b.subrange(k_at, b.len() as int) =~= kt + (close() + rest));
            assert(json_string_prefix(kt + (close() + rest)) == Some((key, kt.len())));
            assert(b.subrange(k_at + kt.len(), k_at + kt.len() + 2) =~= close());
        },
    }
}

} // verus!
