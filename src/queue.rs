//! The durable queue: one sled tree per namespace, holding encoded event
//! frames under 8-byte big-endian counter keys, so that a scan of a tree
//! gives its records in the order they were enqueued.
//!
//! The model of the database is [`stored`]: tree name to (key to value).
//! It stays true while every change to the database goes through one
//! `EventQueue`, which callers share behind a lock.
use vstd::prelude::*;
use vstd::utf8::encode_utf8;
use crate::decode::decode_frame;
use crate::frame::{frame_bytes, Frame, FrameView, Payload, PayloadView};

verus! {

#[verifier::external_type_specification]
#[verifier::external_body]
pub struct ExDb(sled::Db);

#[verifier::external_type_specification]
#[verifier::external_body]
pub struct ExSledError(sled::Error);

/// What a database holds: for each tree name, its keys and values.
pub uninterp spec fn stored(db: sled::Db) -> Map<Seq<u8>, Map<Seq<u8>, Seq<u8>>>;

/// The contents of tree `name`; a tree never opened is empty.
pub open spec fn part(parts: Map<Seq<u8>, Map<Seq<u8>, Seq<u8>>>, name: Seq<u8>) -> Map<
    Seq<u8>,
    Seq<u8>,
> {
    if parts.contains_key(name) {
        parts[name]
    } else {
        Map::empty()
    }
}

/// Byte strings in lexicographic order, as sled orders keys.
pub open spec fn lex_lt(a: Seq<u8>, b: Seq<u8>) -> bool
    decreases a.len(),
{
    if a.len() == 0 {
        b.len() > 0
    } else if b.len() == 0 {
        false
    } else if a[0] != b[0] {
        a[0] < b[0]
    } else {
        lex_lt(a.drop_first(), b.drop_first())
    }
}

pub open spec fn pairs_of(v: Seq<(Vec<u8>, Vec<u8>)>) -> Seq<(Seq<u8>, Seq<u8>)> {
    v.map_values(|p: (Vec<u8>, Vec<u8>)| (p.0@, p.1@))
}

/// `s` lists every entry of `m` once, in ascending key order.
pub open spec fn is_listing(m: Map<Seq<u8>, Seq<u8>>, s: Seq<(Seq<u8>, Seq<u8>)>) -> bool {
    &&& forall|i: int| 0 <= i < s.len() ==> m.contains_key(#[trigger] s[i].0) && m[s[i].0] == s[i].1
    &&& forall|k: Seq<u8>| #[trigger]
        m.contains_key(k) ==> exists|i: int| 0 <= i < s.len() && #[trigger] s[i].0 == k
    &&& forall|i: int, j: int| 0 <= i < j < s.len() ==> lex_lt(#[trigger] s[i].0, #[trigger] s[j].0)
}

/// `m` has a listing; every finite map has one.
pub open spec fn has_listing(m: Map<Seq<u8>, Seq<u8>>) -> bool {
    exists|s: Seq<(Seq<u8>, Seq<u8>)>| is_listing(m, s)
}

/// The listing of `m`: its entries in ascending key order.  There is at
/// most one ([`lemma_listing_unique`]).
pub open spec fn listing_of(m: Map<Seq<u8>, Seq<u8>>) -> Seq<(Seq<u8>, Seq<u8>)> {
    choose|s: Seq<(Seq<u8>, Seq<u8>)>| is_listing(m, s)
}

/// Relies on sled::open: opens or creates the database at `path`.  What it
/// holds is whatever is on disk.
#[verifier::external_body]
fn open_db(path: &str) -> (r: Result<sled::Db, sled::Error>) {
    sled::open(path)
}

/// Relies on sled's Db::open_tree and Tree::insert: tree `tree` then maps
/// `key` to `value`, and nothing else changes.
#[verifier::external_body]
fn tree_insert(db: &mut sled::Db, tree: &[u8], key: &[u8], value: &[u8]) -> (r: Result<
    (),
    sled::Error,
>)
    ensures
        r is Ok ==> stored(*final(db)) == stored(*old(db)).insert(
            tree@,
            part(stored(*old(db)), tree@).insert(key@, value@),
        ),
{
    db.open_tree(tree)?.insert(key, value).map(|_| ())
}

/// Relies on sled's Db::open_tree and Tree::remove: tree `tree` loses `key`,
/// nothing else changes, and the result says whether the key was there.
#[verifier::external_body]
fn tree_remove(db: &mut sled::Db, tree: &[u8], key: &[u8]) -> (r: Result<bool, sled::Error>)
    ensures
        r matches Ok(found) ==> found == part(stored(*old(db)), tree@).contains_key(key@)
            && stored(*final(db)) == stored(*old(db)).insert(
            tree@,
            part(stored(*old(db)), tree@).remove(key@),
        ),
{
    db.open_tree(tree)?.remove(key).map(|old| old.is_some())
}

/// Relies on sled's Db::open_tree and Tree::iter: every entry of the tree,
/// once each, in ascending key order.
#[verifier::external_body]
fn tree_entries(db: &sled::Db, tree: &[u8]) -> (r: Result<Vec<(Vec<u8>, Vec<u8>)>, sled::Error>)
    ensures
        r matches Ok(v) ==> is_listing(part(stored(*db), tree@), pairs_of(v@)),
{
    db.open_tree(tree)?.iter().map(|kv| kv.map(|(k, v)| (k.to_vec(), v.to_vec()))).collect()
}

/// Relies on sled's Db::open_tree and Tree::last: the entry with the
/// greatest key, or `None` for an empty tree.
#[verifier::external_body]
fn tree_last(db: &sled::Db, tree: &[u8]) -> (r: Result<Option<(Vec<u8>, Vec<u8>)>, sled::Error>)
    ensures
        r matches Ok(Some(kv)) ==> part(stored(*db), tree@).contains_key(kv.0@) && part(
            stored(*db),
            tree@,
        )[kv.0@] == kv.1@ && forall|k: Seq<u8>| #[trigger]
            part(stored(*db), tree@).contains_key(k) ==> k == kv.0@ || lex_lt(k, kv.0@),
        r matches Ok(None) ==> part(stored(*db), tree@).dom() == Set::<Seq<u8>>::empty(),
{
    db.open_tree(tree)?.last().map(|e| e.map(|(k, v)| (k.to_vec(), v.to_vec())))
}

/// Relies on sled's Db::generate_id: a number for a new record.  Nothing
/// is claimed of its value here; the queue keeps its keys ascending itself.
#[verifier::external_body]
fn generate_id(db: &sled::Db) -> (r: Result<u64, sled::Error>) {
    db.generate_id()
}

/// Relies on sled's Tree::flush: writes what is buffered to disk.  It
/// changes no entry.
#[verifier::external_body]
fn flush_db(db: &sled::Db) -> (r: Result<(), sled::Error>) {
    db.flush().map(|_| ())
}

// ---------------------------------------------------------------------------
// Keys
pub open spec fn pow256(k: nat) -> nat
    decreases k,
{
    if k == 0 {
        1
    } else {
        256 * pow256((k - 1) as nat)
    }
}

/// `n` as `len` big-endian bytes.
pub open spec fn be_bytes(n: nat, len: nat) -> Seq<u8>
    decreases len,
{
    if len == 0 {
        Seq::empty()
    } else {
        be_bytes(n / 256, (len - 1) as nat).push((n % 256) as u8)
    }
}

/// The number that big-endian bytes stand for.
pub open spec fn be_value(s: Seq<u8>) -> nat
    decreases s.len(),
{
    if s.len() == 0 {
        0
    } else {
        (be_value(s.drop_last()) * 256 + s.last()) as nat
    }
}

/// The tree key of record number `n`.
pub open spec fn key_of(n: u64) -> Seq<u8> {
    be_bytes(n as nat, 8)
}

pub proof fn lemma_be_bytes_len(n: nat, len: nat)
    ensures
        be_bytes(n, len).len() == len,
    decreases len,
{
    if len > 0 {
        lemma_be_bytes_len(n / 256, (len - 1) as nat);
    }
}

proof fn lemma_be_bytes_of_value(s: Seq<u8>)
    ensures
        be_bytes(be_value(s), s.len()) == s,
    decreases s.len(),
{
    if s.len() > 0 {
        let p = s.drop_last();
        lemma_be_bytes_of_value(p);
        let v = be_value(s);
        assert(v / 256 == be_value(p) && v % 256 == s.last()) by (nonlinear_arith)
            requires
                v == be_value(p) * 256 + s.last(),
                s.last() < 256,
        ;
        assert(p.push(s.last()) =~= s);
    }
}

proof fn lemma_be_value_bound(s: Seq<u8>)
    ensures
        be_value(s) < pow256(s.len()),
    decreases s.len(),
{
    if s.len() > 0 {
        let p = s.drop_last();
        lemma_be_value_bound(p);
        let a = be_value(p);
        let b = pow256(p.len());
        assert(a * 256 + s.last() < 256 * b) by (nonlinear_arith)
            requires
                a < b,
                s.last() < 256,
        ;
    }
}

proof fn lemma_lex_push_last(p: Seq<u8>, x: u8, y: u8)
    requires
        x < y,
    ensures
        lex_lt(p.push(x), p.push(y)),
    decreases p.len(),
{
    if p.len() > 0 {
        lemma_lex_push_last(p.drop_first(), x, y);
        assert(p.push(x).drop_first() =~= p.drop_first().push(x));
        assert(p.push(y).drop_first() =~= p.drop_first().push(y));
    }
}

proof fn lemma_lex_push_both(a: Seq<u8>, b: Seq<u8>, x: u8, y: u8)
    requires
        a.len() == b.len(),
        lex_lt(a, b),
    ensures
        lex_lt(a.push(x), b.push(y)),
    decreases a.len(),
{
    if a.len() > 0 && a[0] == b[0] {
        lemma_lex_push_both(a.drop_first(), b.drop_first(), x, y);
        assert(a.push(x).drop_first() =~= a.drop_first().push(x));
        assert(b.push(y).drop_first() =~= b.drop_first().push(y));
    }
}

/// Larger numbers have greater keys.
proof fn lemma_be_bytes_order(n: nat, m: nat, len: nat)
    requires
        n < m < pow256(len),
    ensures
        lex_lt(be_bytes(n, len), be_bytes(m, len)),
    decreases len,
{
    let l1 = (len - 1) as nat;
    assert(len > 0);
    assert(pow256(len) == 256 * pow256(l1));
    let q1 = n / 256;
    let q2 = m / 256;
    assert(q1 <= q2 && q2 < pow256(l1)) by (nonlinear_arith)
        requires
            n < m,
            m < 256 * pow256(l1),
            q1 == n / 256,
            q2 == m / 256,
    ;
    lemma_be_bytes_len(q1, l1);
    lemma_be_bytes_len(q2, l1);
    if q1 < q2 {
        lemma_be_bytes_order(q1, q2, l1);
        lemma_lex_push_both(be_bytes(q1, l1), be_bytes(q2, l1), (n % 256) as u8, (m % 256) as u8);
    } else {
        lemma_lex_push_last(be_bytes(q1, l1), (n % 256) as u8, (m % 256) as u8);
    }
}

proof fn lemma_lex_trans(a: Seq<u8>, b: Seq<u8>, c: Seq<u8>)
    requires
        lex_lt(a, b),
        lex_lt(b, c),
    ensures
        lex_lt(a, c),
    decreases a.len(),
{
    if a.len() > 0 && b.len() > 0 && c.len() > 0 && a[0] == b[0] && b[0] == c[0] {
        lemma_lex_trans(a.drop_first(), b.drop_first(), c.drop_first());
    }
}

proof fn lemma_lex_irrefl(a: Seq<u8>)
    ensures
        !lex_lt(a, a),
    decreases a.len(),
{
    if a.len() > 0 {
        lemma_lex_irrefl(a.drop_first());
    }
}

proof fn lemma_pow256_mono(a: nat, b: nat)
    requires
        a <= b,
    ensures
        pow256(a) <= pow256(b),
    decreases b - a,
{
    if a < b {
        lemma_pow256_mono(a, (b - 1) as nat);
    }
}

/// The key of record number `n`, as 8 big-endian bytes.
fn be_bytes_of(n: u64, len: u8) -> (r: Vec<u8>)
    ensures
        r@ == be_bytes(n as nat, len as nat),
    decreases len,
{
    if len == 0 {
        Vec::new()
    } else {
        let mut v = be_bytes_of(n / 256, len - 1);
        v.push((n % 256) as u8);
        v
    }
}

pub fn key_bytes(n: u64) -> (r: Vec<u8>)
    ensures
        r@ == key_of(n),
{
    be_bytes_of(n, 8)
}

/// The number an 8-byte key stands for.
pub fn key_number(k: &[u8]) -> (r: u64)
    requires
        k@.len() == 8,
    ensures
        r == be_value(k@),
{
    let mut acc: u64 = 0;
    let mut i: usize = 0;
    while i < 8
        invariant
            i <= 8,
            k@.len() == 8,
            acc as nat == be_value(k@.take(i as int)),
            acc < pow256(i as nat),
        decreases 8 - i,
    {
        proof {
            assert(k@.take(i as int + 1).drop_last() =~= k@.take(i as int));
            reveal_with_fuel(pow256, 9);
            assert(pow256(8) == 0x1_0000_0000_0000_0000);
            let p = pow256(i as nat);
            assert(pow256(i as nat + 1) == 256 * p);
            lemma_pow256_mono(i as nat, 7);
            assert(acc * 256 + k@[i as int] < 256 * p) by (nonlinear_arith)
                requires
                    acc < p,
                    k@[i as int] < 256,
            ;
        }
        acc = acc * 256 + k[i] as u64;
        i = i + 1;
    }
    proof {
        assert(k@.take(8) =~= k@);
    }
    acc
}

proof fn lemma_listing_drop_first(m: Map<Seq<u8>, Seq<u8>>, s: Seq<(Seq<u8>, Seq<u8>)>)
    requires
        is_listing(m, s),
        s.len() > 0,
    ensures
        is_listing(m.remove(s[0].0), s.drop_first()),
{
    let k0 = s[0].0;
    let m2 = m.remove(k0);
    let t = s.drop_first();
    assert forall|i: int| 0 <= i < t.len() implies m2.contains_key(#[trigger] t[i].0) && m2[t[i].0]
        == t[i].1 by {
        assert(t[i] == s[i + 1]);
        assert(lex_lt(s[0].0, s[i + 1].0));
        if t[i].0 == k0 {
            lemma_lex_irrefl(k0);
        }
    }
    assert forall|k: Seq<u8>| #[trigger] m2.contains_key(k) implies exists|i: int|
        0 <= i < t.len() && #[trigger] t[i].0 == k by {
        assert(m.contains_key(k));
        let j = choose|j: int| 0 <= j < s.len() && #[trigger] s[j].0 == k;
        assert(j != 0);
        assert(t[j - 1] == s[j]);
    }
    assert forall|i: int, j: int| 0 <= i < j < t.len() implies lex_lt(#[trigger] t[i].0, #[trigger] t[j].0) by {
        assert(t[i] == s[i + 1] && t[j] == s[j + 1]);
    }
}

/// Two listings of the same map are the same: keys strictly ascend.
pub proof fn lemma_listing_unique(
    m: Map<Seq<u8>, Seq<u8>>,
    s1: Seq<(Seq<u8>, Seq<u8>)>,
    s2: Seq<(Seq<u8>, Seq<u8>)>,
)
    requires
        is_listing(m, s1),
        is_listing(m, s2),
    ensures
        s1 == s2,
    decreases s1.len(),
{
    if s1.len() == 0 {
        if s2.len() > 0 {
            assert(m.contains_key(s2[0].0));
        }
        assert(s1 =~= s2);
    } else {
        assert(m.contains_key(s1[0].0));
        assert(s2.len() > 0);
        let k1 = s1[0].0;
        let k2 = s2[0].0;
        if k1 != k2 {
            assert(m.contains_key(k2));
            let j = choose|j: int| 0 <= j < s1.len() && #[trigger] s1[j].0 == k2;
            assert(lex_lt(s1[0].0, s1[j].0));
            let i = choose|i: int| 0 <= i < s2.len() && #[trigger] s2[i].0 == k1;
            assert(lex_lt(s2[0].0, s2[i].0));
            lemma_lex_trans(k1, k2, k1);
            lemma_lex_irrefl(k1);
        }
        lemma_listing_drop_first(m, s1);
        lemma_listing_drop_first(m, s2);
        lemma_listing_unique(m.remove(k1), s1.drop_first(), s2.drop_first());
        assert(s1 =~= seq![s1[0]] + s1.drop_first());
        assert(s2 =~= seq![s2[0]] + s2.drop_first());
        assert(s1[0] == s2[0]);
    }
}

/// A listing of `m` is the listing of `m`.
pub proof fn lemma_listing_is_the_listing(m: Map<Seq<u8>, Seq<u8>>, s: Seq<(Seq<u8>, Seq<u8>)>)
    requires
        is_listing(m, s),
    ensures
        has_listing(m),
        listing_of(m) == s,
{
    lemma_listing_unique(m, listing_of(m), s);
}

// ---------------------------------------------------------------------------
// The queue
/// Why a queue operation failed.
#[derive(Debug)]
pub enum QueueError {
    /// The frame to enqueue carries no event.
    NotAnEvent,
    /// The namespace's tree holds a key that is not a record counter.
    ForeignKey,
    /// The record counter of the namespace is exhausted.
    Full,
    /// The store failed.
    Store(sled::Error),
    /// The store failed while deleting a record; what the tree then holds
    /// is the store's to say.
    DeleteFailed(sled::Error),
    /// The store failed while inserting the record; what the tree then
    /// holds is the store's to say.
    InsertFailed(sled::Error),
    /// The record went into the tree under this number, but writing it to
    /// disk failed: it is in the queue, and may not survive a crash.
    NotFlushed(u64, sled::Error),
}

/// From `parts0` to `parts1`, tree `name` lost some of the records of
/// events with id `id` and nothing else, and no other tree changed.
pub open spec fn partly_removed(
    parts0: Map<Seq<u8>, Map<Seq<u8>, Seq<u8>>>,
    parts1: Map<Seq<u8>, Map<Seq<u8>, Seq<u8>>>,
    name: Seq<u8>,
    id: Seq<char>,
) -> bool {
    let m0 = part(parts0, name);
    let m1 = part(parts1, name);
    &&& forall|k: Seq<u8>| #[trigger] m1.contains_key(k) ==> m0.contains_key(k) && m1[k] == m0[k]
    &&& forall|k: Seq<u8>|
        #[trigger] m0.contains_key(k) && !m1.contains_key(k) ==> keys_with_id(m0, id).contains(k)
    &&& forall|other: Seq<u8>| other != name ==> #[trigger] part(parts1, other) == part(parts0, other)
}

/// `k` is the greatest key of `m`.
pub open spec fn greatest_key(m: Map<Seq<u8>, Seq<u8>>, k: Seq<u8>) -> bool {
    &&& m.contains_key(k)
    &&& forall|j: Seq<u8>| #[trigger] m.contains_key(j) ==> j == k || lex_lt(j, k)
}

/// The greatest key of `m` is not a record counter.
pub open spec fn foreign_top(m: Map<Seq<u8>, Seq<u8>>) -> bool {
    exists|k: Seq<u8>| #[trigger] greatest_key(m, k) && k.len() != 8
}

/// The greatest key of `m` is the last record counter.
pub open spec fn full_top(m: Map<Seq<u8>, Seq<u8>>) -> bool {
    greatest_key(m, key_of(u64::MAX))
}

/// Every key of `m` is a record counter short of the last.
pub open spec fn counters_left(m: Map<Seq<u8>, Seq<u8>>) -> bool {
    forall|k: Seq<u8>| #[trigger] m.contains_key(k) ==> k.len() == 8 && k != key_of(u64::MAX)
}

/// What an enqueue that failed with `e` says of the tree `m` it found: a
/// foreign or last greatest key exactly when it says so, and nothing
/// changed unless the store failed.
pub open spec fn enqueue_failure(
    parts0: Map<Seq<u8>, Map<Seq<u8>, Seq<u8>>>,
    parts1: Map<Seq<u8>, Map<Seq<u8>, Seq<u8>>>,
    ns: Seq<char>,
    bytes: Seq<u8>,
    e: &QueueError,
) -> bool {
    let m = part(parts0, encode_utf8(ns));
    &&& !(e is NotAnEvent)
    &&& e is ForeignKey ==> foreign_top(m)
    &&& e is Full ==> full_top(m)
    &&& foreign_top(m) ==> e is ForeignKey || e is Store
    &&& full_top(m) ==> e is Full || e is Store
    &&& counters_left(m) ==> !(e is ForeignKey) && !(e is Full)
    &&& (e is Store || e is ForeignKey || e is Full) ==> parts1 == parts0
    &&& e matches QueueError::NotFlushed(n, _) ==> enqueued(parts0, parts1, ns, *n, bytes)
}

/// From `parts0` to `parts1`, the tree of namespace `ns` gained `bytes`
/// under record number `n`, above every key it held, and nothing else
/// changed.
pub open spec fn enqueued(
    parts0: Map<Seq<u8>, Map<Seq<u8>, Seq<u8>>>,
    parts1: Map<Seq<u8>, Map<Seq<u8>, Seq<u8>>>,
    ns: Seq<char>,
    n: u64,
    bytes: Seq<u8>,
) -> bool {
    let name = encode_utf8(ns);
    &&& part(parts1, name) == part(parts0, name).insert(key_of(n), bytes)
    &&& forall|k: Seq<u8>| #[trigger] part(parts0, name).contains_key(k) ==> lex_lt(k, key_of(n))
    &&& forall|other: Seq<u8>| other != name ==> #[trigger] part(parts1, other) == part(parts0, other)
}

proof fn lemma_greatest_unique(m: Map<Seq<u8>, Seq<u8>>, a: Seq<u8>, b: Seq<u8>)
    requires
        greatest_key(m, a),
        greatest_key(m, b),
    ensures
        a == b,
{
    if a != b {
        assert(m.contains_key(b) && m.contains_key(a));
        lemma_lex_trans(a, b, a);
        lemma_lex_irrefl(a);
    }
}

/// The event id a stored value carries, if it is an encoded event frame.
pub open spec fn stored_event_id(v: Seq<u8>) -> Option<Seq<char>> {
    match decode_frame(v) {
        Some(f) => match f.payload {
            Some(PayloadView::Event(e)) => Some(e.id),
            _ => None,
        },
        None => None,
    }
}

/// The keys whose records are events with id `id`.
pub open spec fn keys_with_id(m: Map<Seq<u8>, Seq<u8>>, id: Seq<char>) -> Set<Seq<u8>> {
    m.dom().filter(|k: Seq<u8>| stored_event_id(m[k]) == Some(id))
}

/// A record as a fetch returns it: a counter key and a decodable frame.
pub open spec fn record_of(kv: (Seq<u8>, Seq<u8>)) -> Option<(u64, FrameView)> {
    if kv.0.len() == 8 {
        match decode_frame(kv.1) {
            Some(f) => Some((be_value(kv.0) as u64, f)),
            None => None,
        }
    } else {
        None
    }
}

/// The records of a listing, in its order; other entries are skipped.
pub open spec fn records(s: Seq<(Seq<u8>, Seq<u8>)>) -> Seq<(u64, FrameView)>
    decreases s.len(),
{
    if s.len() == 0 {
        Seq::empty()
    } else {
        match record_of(s.last()) {
            Some(r) => records(s.drop_last()).push(r),
            None => records(s.drop_last()),
        }
    }
}

/// At most `max` of the records, from the first.
pub open spec fn limited(rs: Seq<(u64, FrameView)>, max: Option<usize>) -> Seq<(u64, FrameView)> {
    match max {
        Some(n) => if rs.len() > n {
            rs.take(n as int)
        } else {
            rs
        },
        None => rs,
    }
}

pub open spec fn records_view(v: Seq<(u64, Frame)>) -> Seq<(u64, FrameView)> {
    v.map_values(|r: (u64, Frame)| (r.0, r.1@))
}

proof fn lemma_records_prefix(s: Seq<(Seq<u8>, Seq<u8>)>, i: int)
    requires
        0 <= i <= s.len(),
    ensures
        records(s.take(i)).len() <= records(s).len(),
        records(s.take(i)) == records(s).take(records(s.take(i)).len() as int),
    decreases s.len() - i,
{
    if i < s.len() {
        lemma_records_prefix(s, i + 1);
        assert(s.take(i + 1).drop_last() =~= s.take(i));
        let a = records(s.take(i));
        let b = records(s.take(i + 1));
        assert(b.take(a.len() as int) =~= a);
        assert(records(s).take(a.len() as int) =~= records(s).take(b.len() as int).take(a.len() as int));
    } else {
        assert(s.take(i) =~= s);
        assert(records(s).take(records(s).len() as int) =~= records(s));
    }
}

/// The keys of `hits` among the first `i` entries of `s`.
pub open spec fn seen_hits(hits: Set<Seq<u8>>, s: Seq<(Seq<u8>, Seq<u8>)>, i: int) -> Set<Seq<u8>> {
    hits.filter(|k: Seq<u8>| exists|j: int| 0 <= j < i && #[trigger] s[j].0 == k)
}

proof fn lemma_seen_step(hits: Set<Seq<u8>>, s: Seq<(Seq<u8>, Seq<u8>)>, i: int)
    requires
        0 <= i < s.len(),
    ensures
        hits.contains(s[i].0) ==> seen_hits(hits, s, i + 1) == seen_hits(hits, s, i).insert(s[i].0),
        !hits.contains(s[i].0) ==> seen_hits(hits, s, i + 1) == seen_hits(hits, s, i),
{
    if hits.contains(s[i].0) {
        assert(seen_hits(hits, s, i + 1) =~= seen_hits(hits, s, i).insert(s[i].0));
    } else {
        assert(seen_hits(hits, s, i + 1) =~= seen_hits(hits, s, i));
    }
}

proof fn lemma_remove_one_more(m: Map<Seq<u8>, Seq<u8>>, gone: Set<Seq<u8>>, k: Seq<u8>)
    ensures
        m.remove_keys(gone).remove(k) == m.remove_keys(gone.insert(k)),
{
    assert(m.remove_keys(gone).remove(k) =~= m.remove_keys(gone.insert(k)));
}

/// Every key of the tree comes in its listing, so a scan sees every hit.
proof fn lemma_seen_all(m: Map<Seq<u8>, Seq<u8>>, s: Seq<(Seq<u8>, Seq<u8>)>, hits: Set<Seq<u8>>)
    requires
        is_listing(m, s),
        hits.subset_of(m.dom()),
    ensures
        seen_hits(hits, s, s.len() as int) == hits,
{
    assert forall|k: Seq<u8>| hits.contains(k) implies seen_hits(hits, s, s.len() as int).contains(k) by {
        assert(m.contains_key(k));
    }
    assert(seen_hits(hits, s, s.len() as int) =~= hits);
}

pub struct EventQueue {
    db: sled::Db,
}

impl EventQueue {
    /// The queue's trees: name to (key to stored bytes).
    pub closed spec fn parts(&self) -> Map<Seq<u8>, Map<Seq<u8>, Seq<u8>>> {
        stored(self.db)
    }

    /// The tree of namespace `ns`.
    pub open spec fn partition(&self, ns: Seq<char>) -> Map<Seq<u8>, Seq<u8>> {
        part(self.parts(), encode_utf8(ns))
    }

    /// Opens the queue stored at `path`, creating it if need be.
    pub fn new(path: &str) -> (r: Result<EventQueue, QueueError>)
        ensures
            r is Err ==> r matches Err(QueueError::Store(_)),
    {
        match open_db(path) {
            Ok(db) => Ok(EventQueue { db }),
            Err(e) => Err(QueueError::Store(e)),
        }
    }

    /// Stores the whole encoded frame in the tree of its event's namespace,
    /// under a key greater than every key the tree holds, and flushes it to
    /// disk.  Gives the record number.
    pub fn enqueue(&mut self, frame: &Frame) -> (r: Result<u64, QueueError>)
        ensures
            (frame.payload matches Some(Payload::Event(_))) <==> !(r matches Err(
                QueueError::NotAnEvent,
            )),
            r matches Ok(n) ==> enqueued(
                old(self).parts(),
                final(self).parts(),
                frame.payload->Some_0->Event_0.namespace@,
                n,
                frame_bytes(frame@),
            ),
            r matches Err(e) ==> (frame.payload matches Some(Payload::Event(ev)) ==> enqueue_failure(
                old(self).parts(),
                final(self).parts(),
                ev.namespace@,
                frame_bytes(frame@),
                &e,
            )),
            r matches Err(QueueError::NotAnEvent) ==> final(self).parts() == old(self).parts(),
    {
        let ns = match &frame.payload {
            Some(Payload::Event(ev)) => &ev.namespace,
            _ => return Err(QueueError::NotAnEvent),
        };
        let name = ns.as_str().as_bytes();
        let ghost m = part(stored(self.db), name@);
        let last_entry = match tree_last(&self.db, name) {
            Err(e) => return Err(QueueError::Store(e)),
            Ok(x) => x,
        };
        let id = match generate_id(&self.db) {
            Err(e) => return Err(QueueError::Store(e)),
            Ok(id) => id,
        };
        reveal_with_fuel(pow256, 9);
        let n: u64 = match last_entry {
            None => {
                proof {
                    assert(!foreign_top(m)) by {
                        if foreign_top(m) {
                            let k = choose|k: Seq<u8>| #[trigger] greatest_key(m, k) && k.len() != 8;
                            assert(m.dom().contains(k));
                        }
                    }
                    assert(!full_top(m)) by {
                        if full_top(m) {
                            assert(m.dom().contains(key_of(u64::MAX)));
                        }
                    }
                }
                id
            },
            Some(kv) => {
                proof {
                    assert(greatest_key(m, kv.0@));
                    if foreign_top(m) {
                        let k = choose|k: Seq<u8>| #[trigger] greatest_key(m, k) && k.len() != 8;
                        lemma_greatest_unique(m, k, kv.0@);
                    }
                    if full_top(m) {
                        lemma_greatest_unique(m, key_of(u64::MAX), kv.0@);
                    }
                    lemma_be_bytes_len(u64::MAX as nat, 8);
                }
                if kv.0.len() != 8 {
                    proof {
                        assert(foreign_top(m));
                        assert(!counters_left(m)) by {
                            assert(m.contains_key(kv.0@));
                        }
                    }
                    return Err(QueueError::ForeignKey);
                }
                let last = key_number(kv.0.as_slice());
                proof {
                    lemma_be_bytes_of_value(kv.0@);
                    lemma_be_value_bound(kv.0@);
                }
                if last == u64::MAX {
                    proof {
                        assert(kv.0@ == key_of(u64::MAX));
                        assert(!counters_left(m)) by {
                            assert(m.contains_key(kv.0@));
                        }
                    }
                    return Err(QueueError::Full);
                }
                proof {
                    if full_top(m) {
                        lemma_be_value_of_bytes(u64::MAX as nat, 8);
                    }
                }
                let n = if id > last {
                    id
                } else {
                    last + 1
                };
                proof {
                    lemma_be_bytes_order(last as nat, n as nat, 8);
                    assert forall|k: Seq<u8>| #[trigger]
                        part(stored(self.db), name@).contains_key(k) implies lex_lt(k, key_of(n)) by {
                        if k != kv.0@ {
                            lemma_lex_trans(k, kv.0@, key_of(n));
                        }
                    }
                }
                n
            },
        };
        let key = key_bytes(n);
        let value = frame.encode();
        let ghost before = stored(self.db);
        match tree_insert(&mut self.db, name, key.as_slice(), value.as_slice()) {
            Err(e) => return Err(QueueError::InsertFailed(e)),
            Ok(()) => {},
        }
        proof {
            assert forall|other: Seq<u8>| other != name@ implies #[trigger] part(
                stored(self.db),
                other,
            ) == part(before, other) by {}
        }
        proof {
            assert(enqueued(old(self).parts(), self.parts(), ns@, n, frame_bytes(frame@)));
        }
        match flush_db(&self.db) {
            Err(e) => Err(QueueError::NotFlushed(n, e)),
            Ok(()) => Ok(n),
        }
    }

    /// The records of namespace `ns`, in ascending key order, which is the
    /// order they were enqueued in: at most `max` of them when `max` is
    /// given.  Entries that are not records (another key scheme, bytes that
    /// do not decode) are skipped.
    pub fn fetch(&self, ns: &str, max: Option<usize>) -> (r: Result<Vec<(u64, Frame)>, QueueError>)
        ensures
            r matches Ok(v) ==> has_listing(self.partition(ns@)) && records_view(v@) == limited(
                records(listing_of(self.partition(ns@))),
                max,
            ),
            r is Err ==> r matches Err(QueueError::Store(_)),
    {
        let entries = match tree_entries(&self.db, ns.as_bytes()) {
            Err(e) => return Err(QueueError::Store(e)),
            Ok(v) => v,
        };
        let ghost s = pairs_of(entries@);
        let limit: usize = match max {
            Some(n) => n,
            None => usize::MAX,
        };
        let mut out: Vec<(u64, Frame)> = Vec::new();
        let mut i: usize = 0;
        proof {
            assert(s.take(0) =~= Seq::<(Seq<u8>, Seq<u8>)>::empty());
            assert(records_view(out@) =~= Seq::<(u64, FrameView)>::empty());
        }
        while i < entries.len()
            invariant
                i <= entries@.len(),
                s == pairs_of(entries@),
                records_view(out@) == records(s.take(i as int)),
                out@.len() <= i,
                out@.len() <= limit,
                limit == match max {
                    Some(n) => n,
                    None => usize::MAX,
                },
            ensures
                i == entries@.len() || out@.len() == limit,
            decreases entries@.len() - i,
        {
            if out.len() >= limit {
                break;
            }
            let ghost prev = out@;
            let (k, v) = (&entries[i].0, &entries[i].1);
            proof {
                assert(s.take(i as int + 1).drop_last() =~= s.take(i as int));
                assert(s[i as int] == (k@, v@));
            }
            if k.len() == 8 {
                match Frame::decode(v.as_slice()) {
                    Some(f) => {
                        let num = key_number(k.as_slice());
                        out.push((num, f));
                        proof {
                            assert(records_view(out@) =~= records_view(prev).push((num, f@)));
                        }
                    },
                    None => {},
                }
            }
            i = i + 1;
        }
        proof {
            lemma_records_prefix(s, i as int);
            if i == entries@.len() {
                assert(s.take(i as int) =~= s);
            } else {
                assert(records_view(out@).len() == limit);
                assert(max is Some);
            }
            assert(is_listing(self.partition(ns@), s));
            lemma_listing_is_the_listing(self.partition(ns@), s);
        }
        Ok(out)
    }

    /// Writes to disk what the store holds in memory.
    pub fn flush(&self) -> (r: Result<(), QueueError>)
        ensures
            r is Err ==> r matches Err(QueueError::Store(_)),
    {
        match flush_db(&self.db) {
            Ok(()) => Ok(()),
            Err(e) => Err(QueueError::Store(e)),
        }
    }

    /// Removes every record of namespace `ns` whose event has id `event_id`,
    /// and flushes the removal to disk; says whether there was one.  A second removal of the same event finds
    /// none and changes nothing.
    pub fn remove(&mut self, ns: &str, event_id: &str) -> (r: Result<bool, QueueError>)
        ensures
            r is Err ==> (r matches Err(QueueError::Store(_))) || (r matches Err(
                QueueError::DeleteFailed(_),
            )),
            r matches Err(QueueError::DeleteFailed(_)) ==> keys_with_id(
                old(self).partition(ns@),
                event_id@,
            ) != Set::<Seq<u8>>::empty(),
            r matches Err(QueueError::Store(_)) ==> partly_removed(
                old(self).parts(),
                final(self).parts(),
                encode_utf8(ns@),
                event_id@,
            ),
            r matches Ok(found) ==> {
                &&& final(self).partition(ns@) == old(self).partition(ns@).remove_keys(
                    keys_with_id(old(self).partition(ns@), event_id@),
                )
                &&& found == (keys_with_id(old(self).partition(ns@), event_id@) != Set::<Seq<u8>>::empty())
                &&& forall|other: Seq<u8>|
                    other != encode_utf8(ns@) ==> #[trigger] part(final(self).parts(), other)
                        == part(old(self).parts(), other)
            },
    {
        let name = ns.as_bytes();
        let wanted: String = event_id.to_owned();
        let entries = match tree_entries(&self.db, name) {
            Err(e) => {
                proof {
                    let m = part(stored(self.db), name@);
                    assert(m.remove_keys(Set::empty()) =~= m);
                    assert(partly_removed(old(self).parts(), self.parts(), encode_utf8(ns@), event_id@));
                }
                return Err(QueueError::Store(e));
            },
            Ok(v) => v,
        };
        let ghost s = pairs_of(entries@);
        let ghost m0 = part(stored(self.db), name@);
        let ghost parts0 = stored(self.db);
        let ghost id = event_id@;
        let ghost hits = keys_with_id(m0, id);
        let ghost m_old = old(self).partition(ns@);
        let mut found = false;
        let mut i: usize = 0;
        proof {
            assert(seen_hits(hits, s, 0) =~= Set::<Seq<u8>>::empty());
            assert(m0.remove_keys(seen_hits(hits, s, 0)) =~= m0);
        }
        while i < entries.len()
            invariant
                i <= entries@.len(),
                s == pairs_of(entries@),
                is_listing(m0, s),
                name@ == encode_utf8(ns@),
                wanted@ == id,
                hits == keys_with_id(m0, id),
                m0 == m_old,
                hits == keys_with_id(old(self).partition(ns@), event_id@),
                part(stored(self.db), name@) == m0.remove_keys(seen_hits(hits, s, i as int)),
                found == (seen_hits(hits, s, i as int) != Set::<Seq<u8>>::empty()),
                forall|other: Seq<u8>|
                    other != name@ ==> #[trigger] part(stored(self.db), other) == part(parts0, other),
            decreases entries@.len() - i,
        {
            let (k, v) = (&entries[i].0, &entries[i].1);
            let ghost before = stored(self.db);
            proof {
                assert(s[i as int] == (k@, v@));
                assert(m0.contains_key(s[i as int].0) && m0[s[i as int].0] == s[i as int].1);
            }
            let hit = match Frame::decode(v.as_slice()) {
                Some(f) => match &f.payload {
                    Some(Payload::Event(e)) => e.id == wanted,
                    _ => false,
                },
                None => false,
            };
            proof {
                assert(hit == (stored_event_id(v@) == Some(id)));
                assert(hit == hits.contains(k@));
                lemma_seen_step(hits, s, i as int);
            }
            if hit {
                match tree_remove(&mut self.db, name, k.as_slice()) {
                    Err(e) => {
                        proof {
                            assert(hits.contains(k@));
                            assert(hits != Set::<Seq<u8>>::empty()) by {
                                assert(!Set::<Seq<u8>>::empty().contains(k@));
                            }
                            assert(keys_with_id(old(self).partition(ns@), event_id@) == hits);
                        }
                        return Err(QueueError::DeleteFailed(e));
                    },
                    Ok(_) => {},
                }
                found = true;
                proof {
                    lemma_remove_one_more(m0, seen_hits(hits, s, i as int), k@);
                    assert(seen_hits(hits, s, i as int + 1).contains(k@));
                    assert(!Set::<Seq<u8>>::empty().contains(k@));
                    assert forall|other: Seq<u8>| other != name@ implies #[trigger] part(
                        stored(self.db),
                        other,
                    ) == part(parts0, other) by {
                        assert(part(stored(self.db), other) == part(before, other));
                    }
                }
            }
            i = i + 1;
        }
        proof {
            lemma_seen_all(m0, s, hits);
        }
        if found {
            if let Err(e) = flush_db(&self.db) {
                proof {
                    assert(partly_removed(old(self).parts(), self.parts(), encode_utf8(ns@), event_id@));
                }
                return Err(QueueError::Store(e));
            }
        }
        Ok(found)
    }
}

// ---------------------------------------------------------------------------
// Laws of the queue
/// The event id carried by a fetched frame, if it carries an event.
pub open spec fn frame_event_id(f: FrameView) -> Option<Seq<char>> {
    match f.payload {
        Some(PayloadView::Event(e)) => Some(e.id),
        _ => None,
    }
}

proof fn lemma_be_value_of_bytes(n: nat, len: nat)
    requires
        n < pow256(len),
    ensures
        be_value(be_bytes(n, len)) == n,
    decreases len,
{
    if len > 0 {
        let l1 = (len - 1) as nat;
        assert(pow256(len) == 256 * pow256(l1));
        assert(n / 256 < pow256(l1)) by (nonlinear_arith)
            requires
                n < 256 * pow256(l1),
        ;
        lemma_be_value_of_bytes(n / 256, l1);
        assert(be_bytes(n, len).drop_last() =~= be_bytes(n / 256, l1));
    }
}

/// Every record comes from an entry of the listing.
pub proof fn lemma_records_from(s: Seq<(Seq<u8>, Seq<u8>)>, j: int)
    requires
        0 <= j < records(s).len(),
    ensures
        exists|i: int| 0 <= i < s.len() && #[trigger] record_of(s[i]) == Some(records(s)[j]),
    decreases s.len(),
{
    let p = s.drop_last();
    match record_of(s.last()) {
        Some(r) => {
            if j < records(p).len() {
                lemma_records_from(p, j);
                let i = choose|i: int| 0 <= i < p.len() && #[trigger] record_of(p[i]) == Some(records(p)[j]);
                assert(s[i] == p[i]);
            } else {
                assert(record_of(s[s.len() - 1]) == Some(records(s)[j]));
            }
        },
        None => {
            lemma_records_from(p, j);
            let i = choose|i: int| 0 <= i < p.len() && #[trigger] record_of(p[i]) == Some(records(p)[j]);
            assert(s[i] == p[i]);
        },
    }
}

/// Every entry that is a record comes among the records.
pub proof fn lemma_records_to(s: Seq<(Seq<u8>, Seq<u8>)>, i: int)
    requires
        0 <= i < s.len(),
        record_of(s[i]) is Some,
    ensures
        records(s).contains(record_of(s[i])->Some_0),
    decreases s.len(),
{
    let p = s.drop_last();
    if i < s.len() - 1 {
        assert(s[i] == p[i]);
        lemma_records_to(p, i);
        let j = choose|j: int| 0 <= j < records(p).len() && records(p)[j] == record_of(s[i])->Some_0;
        if record_of(s.last()) is Some {
            assert(records(s)[j] == records(p)[j]);
        }
    } else {
        assert(records(s).last() == record_of(s[i])->Some_0);
    }
}

/// A published event stays fetchable: once its frame is stored under record
/// number `n`, every fetch without a limit returns it, as long as the record
/// is there, which is until an acknowledgement of its id (see
/// [`lemma_record_outlives_other_acks`] and [`lemma_record_outlives_enqueues`]).
pub proof fn lemma_published_is_fetched(
    m: Map<Seq<u8>, Seq<u8>>,
    n: u64,
    f: FrameView,
    s: Seq<(Seq<u8>, Seq<u8>)>,
)
    requires
        m.contains_key(key_of(n)),
        m[key_of(n)] == frame_bytes(f),
        crate::frame::frame_wf(f),
        frame_bytes(f).len() <= u64::MAX,
        is_listing(m, s),
    ensures
        limited(records(s), None).contains((n, f)),
{
    let i = choose|i: int| 0 <= i < s.len() && #[trigger] s[i].0 == key_of(n);
    reveal_with_fuel(pow256, 9);
    lemma_be_bytes_len(n as nat, 8);
    lemma_be_value_of_bytes(n as nat, 8);
    crate::round_trip::lemma_frame_round_trip(f);
    assert(record_of(s[i]) == Some((n, f)));
    lemma_records_to(s, i);
}

/// An acknowledgement of another id leaves a record in place.
pub proof fn lemma_record_outlives_other_acks(m: Map<Seq<u8>, Seq<u8>>, k: Seq<u8>, id: Seq<char>)
    requires
        m.contains_key(k),
        stored_event_id(m[k]) != Some(id),
    ensures
        m.remove_keys(keys_with_id(m, id)).contains_key(k),
        m.remove_keys(keys_with_id(m, id))[k] == m[k],
{
}

/// Enqueueing another frame leaves a record in place, since the new key is
/// greater than every key already there.
pub proof fn lemma_record_outlives_enqueues(
    m: Map<Seq<u8>, Seq<u8>>,
    k: Seq<u8>,
    k2: Seq<u8>,
    v: Seq<u8>,
)
    requires
        m.contains_key(k),
        lex_lt(k, k2),
    ensures
        m.insert(k2, v).contains_key(k),
        m.insert(k2, v)[k] == m[k],
{
    lemma_lex_irrefl(k);
}

/// After an acknowledgement has removed an event's records, no fetch of
/// that namespace returns the event.
pub proof fn lemma_acked_is_not_fetched(
    m: Map<Seq<u8>, Seq<u8>>,
    id: Seq<char>,
    s: Seq<(Seq<u8>, Seq<u8>)>,
    max: Option<usize>,
)
    requires
        is_listing(m.remove_keys(keys_with_id(m, id)), s),
    ensures
        forall|j: int|
            0 <= j < limited(records(s), max).len() ==> frame_event_id(
                #[trigger] limited(records(s), max)[j].1,
            ) != Some(id),
{
    let rs = records(s);
    let after = m.remove_keys(keys_with_id(m, id));
    assert forall|j: int| 0 <= j < limited(rs, max).len() implies frame_event_id(
        #[trigger] limited(rs, max)[j].1,
    ) != Some(id) by {
        assert(limited(rs, max)[j] == rs[j]);
        lemma_records_from(s, j);
        let i = choose|i: int| 0 <= i < s.len() && #[trigger] record_of(s[i]) == Some(rs[j]);
        assert(after.contains_key(s[i].0));
        assert(stored_event_id(s[i].1) == frame_event_id(rs[j].1));
    }
}

/// A second acknowledgement of the same event finds nothing and changes
/// nothing.
pub proof fn lemma_second_ack_is_noop(m: Map<Seq<u8>, Seq<u8>>, id: Seq<char>)
    ensures
        keys_with_id(m.remove_keys(keys_with_id(m, id)), id) == Set::<Seq<u8>>::empty(),
        m.remove_keys(keys_with_id(m, id)).remove_keys(Set::empty()) == m.remove_keys(
            keys_with_id(m, id),
        ),
{
    let after = m.remove_keys(keys_with_id(m, id));
    assert(keys_with_id(after, id) =~= Set::<Seq<u8>>::empty());
    assert(after.remove_keys(Set::empty()) =~= after);
}

/// A fetch lists records in the order their keys were given out: a record
/// with a smaller key, one enqueued earlier, comes first.
pub proof fn lemma_fetch_in_insertion_order(
    m: Map<Seq<u8>, Seq<u8>>,
    s: Seq<(Seq<u8>, Seq<u8>)>,
    i: int,
    j: int,
)
    requires
        is_listing(m, s),
        0 <= i < s.len(),
        0 <= j < s.len(),
        lex_lt(s[i].0, s[j].0),
    ensures
        i < j,
{
    if j == i {
        lemma_lex_irrefl(s[i].0);
    } else if j < i {
        lemma_lex_trans(s[i].0, s[j].0, s[i].0);
        lemma_lex_irrefl(s[i].0);
    }
}

/// Fetch order is insertion order: the record an enqueue adds, under a key
/// greater than every key already there, is the last entry of any later
/// scan of the partition.
pub proof fn lemma_enqueued_comes_last(
    m: Map<Seq<u8>, Seq<u8>>,
    k: Seq<u8>,
    v: Seq<u8>,
    s: Seq<(Seq<u8>, Seq<u8>)>,
)
    requires
        forall|j: Seq<u8>| #[trigger] m.contains_key(j) ==> lex_lt(j, k),
        is_listing(m.insert(k, v), s),
    ensures
        s.len() > 0,
        s.last() == (k, v),
{
    let after = m.insert(k, v);
    assert(after.contains_key(k));
    let i = choose|i: int| 0 <= i < s.len() && #[trigger] s[i].0 == k;
    if i < s.len() - 1 {
        let j = s.len() - 1;
        assert(lex_lt(s[i].0, s[j].0));
        if s[j].0 == k {
            lemma_lex_irrefl(k);
        } else {
            assert(m.contains_key(s[j].0));
            lemma_lex_trans(k, s[j].0, k);
            lemma_lex_irrefl(k);
        }
    }
    assert(after[k] == v);
}

/// Every event record lies in the tree of its own namespace: a partition
/// holds only its namespace's events.
pub open spec fn partitions_consistent(parts: Map<Seq<u8>, Map<Seq<u8>, Seq<u8>>>) -> bool {
    forall|name: Seq<u8>, k: Seq<u8>|
        #[trigger] part(parts, name).contains_key(k) ==> match decode_frame(part(parts, name)[k]) {
            Some(f) => match f.payload {
                Some(PayloadView::Event(e)) => encode_utf8(e.namespace) == name,
                _ => true,
            },
            None => true,
        }
}

/// Enqueueing an event frame into its own namespace keeps every partition
/// holding only its namespace's events.
pub proof fn lemma_enqueue_keeps_partitions(
    parts0: Map<Seq<u8>, Map<Seq<u8>, Seq<u8>>>,
    parts1: Map<Seq<u8>, Map<Seq<u8>, Seq<u8>>>,
    n: u64,
    f: FrameView,
)
    requires
        partitions_consistent(parts0),
        f.payload matches Some(PayloadView::Event(e)) && enqueued(
            parts0,
            parts1,
            e.namespace,
            n,
            frame_bytes(f),
        ),
        crate::frame::frame_wf(f),
        frame_bytes(f).len() <= u64::MAX,
    ensures
        partitions_consistent(parts1),
{
    crate::round_trip::lemma_frame_round_trip(f);
    let e = f.payload->Some_0->Event_0;
    let home = encode_utf8(e.namespace);
    assert forall|name: Seq<u8>, k: Seq<u8>| #[trigger] part(parts1, name).contains_key(k) implies match decode_frame(
        part(parts1, name)[k],
    ) {
        Some(g) => match g.payload {
            Some(PayloadView::Event(x)) => encode_utf8(x.namespace) == name,
            _ => true,
        },
        None => true,
    } by {
        if name != home {
            assert(part(parts1, name) == part(parts0, name));
        } else if k != key_of(n) {
            assert(part(parts0, name).contains_key(k));
        }
    }
}

/// Removing records keeps every partition holding only its namespace's
/// events.
pub proof fn lemma_removal_keeps_partitions(
    parts0: Map<Seq<u8>, Map<Seq<u8>, Seq<u8>>>,
    parts1: Map<Seq<u8>, Map<Seq<u8>, Seq<u8>>>,
    name: Seq<u8>,
    id: Seq<char>,
)
    requires
        partitions_consistent(parts0),
        partly_removed(parts0, parts1, name, id),
    ensures
        partitions_consistent(parts1),
{
    assert forall|nm: Seq<u8>, k: Seq<u8>| #[trigger] part(parts1, nm).contains_key(k) implies match decode_frame(
        part(parts1, nm)[k],
    ) {
        Some(g) => match g.payload {
            Some(PayloadView::Event(x)) => encode_utf8(x.namespace) == nm,
            _ => true,
        },
        None => true,
    } by {
        if nm != name {
            assert(part(parts1, nm) == part(parts0, nm));
        } else {
            assert(part(parts0, nm).contains_key(k));
        }
    }
}

/// A successful removal is a partial one that took every record of the id.
pub proof fn lemma_removal_is_partial(
    parts0: Map<Seq<u8>, Map<Seq<u8>, Seq<u8>>>,
    parts1: Map<Seq<u8>, Map<Seq<u8>, Seq<u8>>>,
    name: Seq<u8>,
    id: Seq<char>,
)
    requires
        part(parts1, name) == part(parts0, name).remove_keys(keys_with_id(part(parts0, name), id)),
        forall|other: Seq<u8>| other != name ==> #[trigger] part(parts1, other) == part(parts0, other),
    ensures
        partly_removed(parts0, parts1, name, id),
{
}

} // verus!
