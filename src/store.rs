use vstd::prelude::*;
use crate::codec::{decode_record, decodes, encode_record, is_encoding, record_bytes, record_read};
use crate::model::PollResult;

verus! {

/// The big-endian bytes of a `u32`.
pub open spec fn be_bytes(x: u32) -> Seq<u8> {
    seq![
        (x / 0x100_0000) as u8,
        ((x / 0x1_0000) % 0x100) as u8,
        ((x / 0x100) % 0x100) as u8,
        (x % 0x100) as u8,
    ]
}

/// The storage key of one voter's record on one post: the post's id, then the
/// voter's id, both as four big-endian bytes.
pub open spec fn storage_key_spec(doc: u32, voter: u32) -> Seq<u8> {
    be_bytes(doc) + be_bytes(voter)
}

/// The storage key of one voter's record on one post.
pub fn storage_key(doc: u32, voter: u32) -> (r: Vec<u8>)
    ensures
        r@ == storage_key_spec(doc, voter),
{
    let mut k: Vec<u8> = Vec::new();
    k.push((doc / 0x100_0000) as u8);
    k.push(((doc / 0x1_0000) % 0x100) as u8);
    k.push(((doc / 0x100) % 0x100) as u8);
    k.push((doc % 0x100) as u8);
    k.push((voter / 0x100_0000) as u8);
    k.push(((voter / 0x1_0000) % 0x100) as u8);
    k.push(((voter / 0x100) % 0x100) as u8);
    k.push((voter % 0x100) as u8);
    assert(k@ =~= storage_key_spec(doc, voter));
    k
}

/// One stored record: post id, voter id, bytes.
pub type Entry = (u32, u32, Vec<u8>);

/// The key order of the store, which is the order of the storage keys' bytes.
pub open spec fn key_lt(a: (u32, u32), b: (u32, u32)) -> bool {
    a.0 < b.0 || (a.0 == b.0 && a.1 < b.1)
}

pub open spec fn entry_key(e: (u32, u32, Seq<u8>)) -> (u32, u32) {
    (e.0, e.1)
}

/// Entries in strictly ascending key order, so each key at most once.
pub open spec fn sorted(s: Seq<(u32, u32, Seq<u8>)>) -> bool {
    forall|a: int, b: int| 0 <= a < b < s.len() ==> key_lt(entry_key(s[a]), entry_key(s[b]))
}

/// The record stored under `k`, if any.
pub open spec fn stored(s: Seq<(u32, u32, Seq<u8>)>, k: (u32, u32)) -> Option<Seq<u8>> {
    if exists|i: int| 0 <= i < s.len() && entry_key(s[i]) == k {
        Some(s[choose|i: int| 0 <= i < s.len() && entry_key(s[i]) == k].2)
    } else {
        None
    }
}

/// `new` is `old` with `bytes` stored under `k`, replacing what was there.
pub open spec fn recorded(
    old: Seq<(u32, u32, Seq<u8>)>,
    new: Seq<(u32, u32, Seq<u8>)>,
    k: (u32, u32),
    bytes: Seq<u8>,
) -> bool {
    &&& sorted(new)
    &&& forall|k2: (u32, u32)| #[trigger]
        stored(new, k2) == if k2 == k {
            Some(bytes)
        } else {
            stored(old, k2)
        }
}

/// The records of post `doc`, in key order (by voter id).
pub open spec fn records_of(s: Seq<(u32, u32, Seq<u8>)>, doc: u32) -> Seq<Seq<u8>>
    decreases s.len(),
{
    if s.len() == 0 {
        Seq::empty()
    } else if s.last().0 == doc {
        records_of(s.drop_last(), doc).push(s.last().2)
    } else {
        records_of(s.drop_last(), doc)
    }
}

/// `s` comes before `t` in lexicographic byte order.
pub open spec fn lex_lt(s: Seq<u8>, t: Seq<u8>) -> bool
    decreases s.len(),
{
    if s.len() == 0 || t.len() == 0 {
        s.len() == 0 && t.len() > 0
    } else {
        s[0] < t[0] || (s[0] == t[0] && lex_lt(s.drop_first(), t.drop_first()))
    }
}

proof fn lemma_lex_concat(p: Seq<u8>, q: Seq<u8>, p2: Seq<u8>, q2: Seq<u8>)
    requires
        p.len() == p2.len(),
    ensures
        lex_lt(p + q, p2 + q2) == (lex_lt(p, p2) || (p == p2 && lex_lt(q, q2))),
    decreases p.len(),
{
    if p.len() > 0 {
        assert((p + q).drop_first() =~= p.drop_first() + q);
        assert((p2 + q2).drop_first() =~= p2.drop_first() + q2);
        lemma_lex_concat(p.drop_first(), q, p2.drop_first(), q2);
        if p[0] == p2[0] && p.drop_first() == p2.drop_first() {
            assert forall|i: int| 0 <= i < p.len() implies p[i] == p2[i] by {
                if i > 0 {
                    assert(p[i] == p.drop_first()[i - 1]);
                    assert(p2[i] == p2.drop_first()[i - 1]);
                }
            }
            assert(p =~= p2);
        }
        if p == p2 {
            assert(p.drop_first() == p2.drop_first());
        }
    } else {
        assert(p + q =~= q);
        assert(p2 + q2 =~= q2);
        assert(p =~= p2);
    }
}

proof fn lemma_be_bytes_order(x: u32, y: u32)
    ensures
        lex_lt(be_bytes(x), be_bytes(y)) == (x < y),
        (be_bytes(x) == be_bytes(y)) == (x == y),
{
    let bx = be_bytes(x);
    let by = be_bytes(y);
    reveal_with_fuel(lex_lt, 5);
    assert(bx.drop_first()[0] == bx[1] && bx.drop_first().drop_first()[0] == bx[2]);
    assert(bx.drop_first().drop_first().drop_first()[0] == bx[3]);
    assert(by.drop_first()[0] == by[1] && by.drop_first().drop_first()[0] == by[2]);
    assert(by.drop_first().drop_first().drop_first()[0] == by[3]);
    assert(bx.drop_first().drop_first().drop_first().drop_first().len() == 0);
    assert(by.drop_first().drop_first().drop_first().drop_first().len() == 0);
    assert(lex_lt(bx, by) == (bx[0] < by[0] || (bx[0] == by[0] && (bx[1] < by[1] || (bx[1] == by[1]
        && (bx[2] < by[2] || (bx[2] == by[2] && bx[3] < by[3])))))));
    assert((x < y) == (x / 0x100_0000 < y / 0x100_0000 || (x / 0x100_0000 == y / 0x100_0000 && (
    (x / 0x1_0000) % 0x100 < (y / 0x1_0000) % 0x100 || ((x / 0x1_0000) % 0x100 == (y / 0x1_0000)
        % 0x100 && ((x / 0x100) % 0x100 < (y / 0x100) % 0x100 || ((x / 0x100) % 0x100 == (y / 0x100)
        % 0x100 && x % 0x100 < y % 0x100))))))) by (bit_vector);
    assert((x == y) == (x / 0x100_0000 == y / 0x100_0000 && (x / 0x1_0000) % 0x100 == (y / 0x1_0000)
        % 0x100 && (x / 0x100) % 0x100 == (y / 0x100) % 0x100 && x % 0x100 == y % 0x100))
        by (bit_vector);
    if bx == by {
        assert(bx[0] == by[0] && bx[1] == by[1] && bx[2] == by[2] && bx[3] == by[3]);
    }
    if x == y {
        assert(bx =~= by);
    }
}

/// The key order of the store is the lexicographic order of the storage keys'
/// bytes, so a walk in key order is a walk in byte order.
pub proof fn lemma_key_order_is_byte_order(a: (u32, u32), b: (u32, u32))
    ensures
        key_lt(a, b) == lex_lt(storage_key_spec(a.0, a.1), storage_key_spec(b.0, b.1)),
{
    lemma_lex_concat(be_bytes(a.0), be_bytes(a.1), be_bytes(b.0), be_bytes(b.1));
    lemma_be_bytes_order(a.0, b.0);
    lemma_be_bytes_order(a.1, b.1);
}

/// In a sorted sequence, the entry at `i` is the one stored under its key.
proof fn lemma_stored_at(s: Seq<(u32, u32, Seq<u8>)>, i: int)
    requires
        sorted(s),
        0 <= i < s.len(),
    ensures
        stored(s, entry_key(s[i])) == Some(s[i].2),
{
    let k = entry_key(s[i]);
    assert(0 <= i < s.len() && entry_key(s[i]) == k);
    let j = choose|j: int| 0 <= j < s.len() && entry_key(s[j]) == k;
    if j < i {
        assert(key_lt(entry_key(s[j]), entry_key(s[i])));
    } else if i < j {
        assert(key_lt(entry_key(s[i]), entry_key(s[j])));
    }
}

/// In a sorted sequence, what is stored under `k` is at the index holding `k`.
proof fn lemma_stored_cases(s: Seq<(u32, u32, Seq<u8>)>, k: (u32, u32))
    requires
        sorted(s),
    ensures
        stored(s, k) is Some ==> exists|i: int|
            0 <= i < s.len() && entry_key(s[i]) == k && stored(s, k) == Some(s[i].2),
{
    if stored(s, k) is Some {
        let i = choose|i: int| 0 <= i < s.len() && entry_key(s[i]) == k;
        lemma_stored_at(s, i);
    }
}

fn key_before(e: &Entry, doc: u32, voter: u32) -> (r: bool)
    ensures
        r == key_lt((e.0, e.1), (doc, voter)),
{
    e.0 < doc || (e.0 == doc && e.1 < voter)
}

/// A store of poll records kept in memory, at most one per (post, voter),
/// walked in the order of their storage keys.
pub struct VoteStore {
    entries: Vec<Entry>,
}

/// Why a vote could not be stored, or the records not read back.
#[derive(Debug, PartialEq, Eq)]
pub enum StoreError {
    /// The submission could not be encoded.
    Encode,
    /// A stored record could not be decoded.
    Decode,
}

impl VoteStore {
    pub closed spec fn view(&self) -> Seq<(u32, u32, Seq<u8>)> {
        self.entries@.map_values(|e: Entry| (e.0, e.1, e.2@))
    }

    pub open spec fn wf(&self) -> bool {
        sorted(self.view())
    }

    /// An empty store.
    pub fn new() -> (r: VoteStore)
        ensures
            r.wf(),
            r.view() == Seq::<(u32, u32, Seq<u8>)>::empty(),
    {
        let r = VoteStore { entries: Vec::new() };
        assert(r.view() =~= Seq::<(u32, u32, Seq<u8>)>::empty());
        r
    }

    /// The record stored for `voter` on post `doc`, if any.
    pub fn get(&self, doc: u32, voter: u32) -> (r: Option<Vec<u8>>)
        requires
            self.wf(),
        ensures
            match r {
                Some(b) => stored(self.view(), (doc, voter)) == Some(b@),
                None => stored(self.view(), (doc, voter)) is None,
            },
    {
        let ghost s = self.view();
        let mut i: usize = 0;
        while i < self.entries.len()
            invariant
                i <= self.entries@.len(),
                s == self.view(),
                sorted(s),
                forall|j: int| 0 <= j < i ==> entry_key(s[j]) != (doc, voter),
            decreases self.entries@.len() - i,
        {
            let e = &self.entries[i];
            if e.0 == doc && e.1 == voter {
                proof {
                    lemma_stored_at(s, i as int);
                }
                return Some(e.2.clone());
            }
            i = i + 1;
        }
        None
    }

    /// Stores `bytes` under (`doc`, `voter`), replacing an earlier record there.
    pub fn insert(&mut self, doc: u32, voter: u32, bytes: Vec<u8>)
        requires
            old(self).wf(),
        ensures
            final(self).wf(),
            recorded(old(self).view(), final(self).view(), (doc, voter), bytes@),
    {
        let ghost s = self.view();
        let ghost k = (doc, voter);
        let mut i: usize = 0;
        while i < self.entries.len() && key_before(&self.entries[i], doc, voter)
            invariant
                i <= self.entries@.len(),
                s == self.view(),
                sorted(s),
                k == (doc, voter),
                forall|j: int| 0 <= j < i ==> key_lt(entry_key(s[j]), k),
            decreases self.entries@.len() - i,
        {
            assert(entry_key(s[i as int]) == (self.entries@[i as int].0, self.entries@[i as int].1));
            assert(key_lt(entry_key(s[i as int]), k));
            i = i + 1;
        }
        let ghost bv = bytes@;
        if i < self.entries.len() && self.entries[i].0 == doc && self.entries[i].1 == voter {
            self.entries.set(i, (doc, voter, bytes));
            proof {
                let t = self.view();
                assert(t =~= s.update(i as int, (doc, voter, bv)));
                assert(sorted(t)) by {
                    assert forall|a: int, b: int| 0 <= a < b < t.len() implies key_lt(
                        entry_key(t[a]),
                        entry_key(t[b]),
                    ) by {
                        assert(entry_key(t[a]) == entry_key(s[a]));
                        assert(entry_key(t[b]) == entry_key(s[b]));
                    }
                }
                assert forall|k2: (u32, u32)| #[trigger]
                    stored(t, k2) == if k2 == k {
                        Some(bv)
                    } else {
                        stored(s, k2)
                    } by {
                    lemma_stored_at(t, i as int);
                    lemma_stored_cases(t, k2);
                    lemma_stored_cases(s, k2);
                    if k2 != k {
                        if stored(s, k2) is Some {
                            let j = choose|j: int|
                                0 <= j < s.len() && entry_key(s[j]) == k2 && stored(s, k2) == Some(
                                    s[j].2,
                                );
                            assert(j != i);
                            lemma_stored_at(t, j);
                        }
                    }
                }
            }
        } else {
            self.entries.insert(i, (doc, voter, bytes));
            proof {
                let t = self.view();
                assert(t =~= s.insert(i as int, (doc, voter, bv)));
                assert(i < s.len() ==> key_lt(k, entry_key(s[i as int])));
                assert(sorted(t)) by {
                    assert forall|a: int, b: int| 0 <= a < b < t.len() implies key_lt(
                        entry_key(t[a]),
                        entry_key(t[b]),
                    ) by {
                        if b < i {
                        } else if b == i {
                        } else if a < i {
                            assert(t[b] == s[b - 1]);
                        } else if a == i {
                            assert(t[b] == s[b - 1]);
                            assert(key_lt(entry_key(s[i as int]), entry_key(s[b - 1])) || b - 1
                                == i);
                        } else {
                            assert(t[a] == s[a - 1]);
                            assert(t[b] == s[b - 1]);
                        }
                    }
                }
                assert forall|k2: (u32, u32)| #[trigger]
                    stored(t, k2) == if k2 == k {
                        Some(bv)
                    } else {
                        stored(s, k2)
                    } by {
                    lemma_stored_at(t, i as int);
                    lemma_stored_cases(t, k2);
                    lemma_stored_cases(s, k2);
                    if k2 != k {
                        if stored(s, k2) is Some {
                            let j = choose|j: int|
                                0 <= j < s.len() && entry_key(s[j]) == k2 && stored(s, k2) == Some(
                                    s[j].2,
                                );
                            if j < i {
                                assert(t[j] == s[j]);
                                lemma_stored_at(t, j);
                            } else {
                                assert(t[j + 1] == s[j]);
                                lemma_stored_at(t, j + 1);
                            }
                        }
                        if stored(t, k2) is Some {
                            let j = choose|j: int|
                                0 <= j < t.len() && entry_key(t[j]) == k2 && stored(t, k2) == Some(
                                    t[j].2,
                                );
                            if j < i {
                                assert(t[j] == s[j]);
                                lemma_stored_at(s, j);
                            } else if j > i {
                                assert(t[j] == s[j - 1]);
                                lemma_stored_at(s, j - 1);
                            }
                        }
                    }
                }
            }
        }
    }

    /// The records of post `doc`, in the order of the voters' ids.
    pub fn scan(&self, doc: u32) -> (r: Vec<Vec<u8>>)
        ensures
            r@.map_values(|b: Vec<u8>| b@) == records_of(self.view(), doc),
    {
        let ghost s = self.view();
        let mut out: Vec<Vec<u8>> = Vec::new();
        let mut i: usize = 0;
        while i < self.entries.len()
            invariant
                i <= self.entries@.len(),
                s == self.view(),
                out@.map_values(|b: Vec<u8>| b@) == records_of(s.subrange(0, i as int), doc),
            decreases self.entries@.len() - i,
        {
            let e = &self.entries[i];
            if e.0 == doc {
                out.push(e.2.clone());
            }
            proof {
                let next = s.subrange(0, i + 1);
                assert(next.drop_last() =~= s.subrange(0, i as int));
                assert(next.last() == s[i as int]);
                assert(out@.map_values(|b: Vec<u8>| b@) =~= records_of(next, doc));
            }
            i = i + 1;
        }
        assert(s.subrange(0, s.len() as int) =~= s);
        out
    }

    /// Encodes `record` and stores it as the vote of `voter` on post `doc`,
    /// replacing an earlier vote of that voter on that post.
    pub fn record_vote(&mut self, doc: u32, voter: u32, record: &PollResult) -> (r: Result<
        (),
        StoreError,
    >)
        requires
            old(self).wf(),
        ensures
            final(self).wf(),
            r is Ok,
            recorded(old(self).view(), final(self).view(), (doc, voter), record_bytes(*record)),
    {
        match encode_record(record) {
            Some(bytes) => {
                self.insert(doc, voter, bytes);
                Ok(())
            },
            None => Err(StoreError::Encode),
        }
    }

    /// Whether the poll definition of post `doc` may change from `old_def` to
    /// `new_def`. Stored records hold option positions and no version of the
    /// poll they answered, so once a vote is stored the definition is fixed.
    pub fn may_edit_definition(&self, doc: u32, old_def: &str, new_def: &str) -> (r: bool)
        ensures
            r == (records_of(self.view(), doc).len() == 0 || old_def@ == new_def@),
    {
        let raw = self.scan(doc);
        assert(raw@.map_values(|b: Vec<u8>| b@).len() == raw@.len());
        if raw.len() == 0 {
            return true;
        }
        let a = old_def.to_owned();
        let b = new_def.to_owned();
        a == b
    }

    /// Every submission stored for post `doc`, decoded, in the order of the
    /// voters' ids. The read fails exactly when a stored record does not
    /// decode; the stored bytes of a submission decode to that submission.
    pub fn aggregate_results(&self, doc: u32) -> (r: Result<Vec<PollResult>, StoreError>)
        ensures
            match r {
                Ok(v) => {
                    &&& v@.len() == records_of(self.view(), doc).len()
                    &&& forall|i: int|
                        0 <= i < v@.len() ==> record_read(records_of(self.view(), doc)[i]) == Some(
                            #[trigger] v@[i]@,
                        )
                    &&& forall|i: int, x: PollResult|
                        #![trigger v@[i], record_bytes(x)]
                        0 <= i < v@.len() && records_of(self.view(), doc)[i] == record_bytes(x)
                            ==> v@[i]@ == x@
                },
                Err(e) => e == StoreError::Decode,
            },
            r is Ok <==> (forall|i: int|
                0 <= i < records_of(self.view(), doc).len() ==> decodes(
                    #[trigger] records_of(self.view(), doc)[i],
                )),
            (forall|i: int|
                0 <= i < records_of(self.view(), doc).len() ==> is_encoding(
                    #[trigger] records_of(self.view(), doc)[i],
                )) ==> r is Ok,
            records_of(self.view(), doc).len() == 0 ==> (r matches Ok(v) && v@.len() == 0),
    {
        let raw = self.scan(doc);
        let ghost recs = records_of(self.view(), doc);
        assert(raw@.map_values(|b: Vec<u8>| b@).len() == raw@.len());
        assert forall|i: int| 0 <= i < raw@.len() implies raw@[i]@ == recs[i] by {
            assert(raw@.map_values(|b: Vec<u8>| b@)[i] == raw@[i]@);
        }
        let mut out: Vec<PollResult> = Vec::new();
        let mut i: usize = 0;
        while i < raw.len()
            invariant
                i <= raw@.len(),
                out@.len() == i,
                recs == records_of(self.view(), doc),
                raw@.len() == recs.len(),
                forall|j: int| 0 <= j < raw@.len() ==> #[trigger] raw@[j]@ == recs[j],
                forall|j: int| 0 <= j < i ==> record_read(recs[j]) == Some(#[trigger] out@[j]@),
                forall|j: int, x: PollResult|
                    #![trigger out@[j], record_bytes(x)]
                    0 <= j < i && recs[j] == record_bytes(x) ==> out@[j]@ == x@,
            decreases raw@.len() - i,
        {
            match decode_record(raw[i].as_slice()) {
                Some(rec) => out.push(rec),
                None => {
                    proof {
                        assert(raw@[i as int]@ == recs[i as int]);
                        assert(!decodes(recs[i as int]));
                        assert forall|x: PollResult| recs[i as int] != #[trigger] record_bytes(x) by {}
                        assert(!is_encoding(recs[i as int]));
                    }
                    return Err(StoreError::Decode);
                },
            }
            i = i + 1;
        }
        proof {
            assert forall|j: int| 0 <= j < recs.len() implies decodes(#[trigger] recs[j]) by {
                assert(record_read(recs[j]) == Some(out@[j]@));
            }
        }
        Ok(out)
    }
}

/// Recording two votes of one voter on one post leaves the second one stored
/// under their key, and everything else as before the first.
pub proof fn lemma_last_vote_wins(
    s0: Seq<(u32, u32, Seq<u8>)>,
    s1: Seq<(u32, u32, Seq<u8>)>,
    s2: Seq<(u32, u32, Seq<u8>)>,
    doc: u32,
    voter: u32,
    first: Seq<u8>,
    second: Seq<u8>,
)
    requires
        recorded(s0, s1, (doc, voter), first),
        recorded(s1, s2, (doc, voter), second),
    ensures
        recorded(s0, s2, (doc, voter), second),
        stored(s2, (doc, voter)) == Some(second),
{
    assert(stored(s2, (doc, voter)) == Some(second));
    assert forall|k2: (u32, u32)| #[trigger]
        stored(s2, k2) == if k2 == (doc, voter) {
            Some(second)
        } else {
            stored(s0, k2)
        } by {
        assert(stored(s2, k2) == if k2 == (doc, voter) {
            Some(second)
        } else {
            stored(s1, k2)
        });
        assert(stored(s1, k2) == if k2 == (doc, voter) {
            Some(first)
        } else {
            stored(s0, k2)
        });
    }
}

proof fn lemma_records_of_empty(s: Seq<(u32, u32, Seq<u8>)>, doc: u32)
    ensures
        (records_of(s, doc).len() == 0) == (forall|i: int| 0 <= i < s.len() ==> s[i].0 != doc),
    decreases s.len(),
{
    if s.len() > 0 {
        lemma_records_of_empty(s.drop_last(), doc);
        assert forall|i: int| 0 <= i < s.len() - 1 implies s.drop_last()[i] == s[i] by {}
        if s.last().0 != doc {
            assert forall|i: int| 0 <= i < s.len() && s[i].0 == doc implies i < s.len() - 1 by {}
        }
    }
}

proof fn lemma_records_of_one(s: Seq<(u32, u32, Seq<u8>)>, doc: u32, j: int)
    requires
        0 <= j < s.len(),
        s[j].0 == doc,
        forall|i: int| 0 <= i < s.len() && i != j ==> s[i].0 != doc,
    ensures
        records_of(s, doc) == seq![s[j].2],
    decreases s.len(),
{
    let p = s.drop_last();
    if j == s.len() - 1 {
        lemma_records_of_empty(p, doc);
        assert forall|i: int| 0 <= i < p.len() implies p[i].0 != doc by {
            assert(p[i] == s[i]);
        }
        assert(records_of(p, doc) =~= Seq::<Seq<u8>>::empty());
        assert(records_of(s, doc) =~= seq![s[j].2]);
    } else {
        assert forall|i: int| 0 <= i < p.len() && i != j implies p[i].0 != doc by {
            assert(p[i] == s[i]);
        }
        lemma_records_of_one(p, doc, j);
    }
}

/// Storing one vote on a post that had none leaves exactly that record to
/// read back for the post.
pub proof fn lemma_first_vote_read_back(
    s0: Seq<(u32, u32, Seq<u8>)>,
    s1: Seq<(u32, u32, Seq<u8>)>,
    doc: u32,
    voter: u32,
    bytes: Seq<u8>,
)
    requires
        records_of(s0, doc).len() == 0,
        recorded(s0, s1, (doc, voter), bytes),
    ensures
        records_of(s1, doc) == seq![bytes],
{
    lemma_records_of_empty(s0, doc);
    assert(stored(s1, (doc, voter)) == Some(bytes));
    lemma_stored_cases(s1, (doc, voter));
    let j = choose|j: int|
        0 <= j < s1.len() && entry_key(s1[j]) == (doc, voter) && stored(s1, (doc, voter)) == Some(
            s1[j].2,
        );
    assert forall|i: int| 0 <= i < s1.len() && i != j implies s1[i].0 != doc by {
        if s1[i].0 == doc {
            let k2 = entry_key(s1[i]);
            if i < j {
                assert(key_lt(entry_key(s1[i]), entry_key(s1[j])));
            } else {
                assert(key_lt(entry_key(s1[j]), entry_key(s1[i])));
            }
            lemma_stored_at(s1, i);
            assert(stored(s1, k2) == stored(s0, k2));
            lemma_stored_cases(s0, k2);
            let m = choose|m: int|
                0 <= m < s0.len() && entry_key(s0[m]) == k2 && stored(s0, k2) == Some(s0[m].2);
            assert(s0[m].0 == doc);
        }
    }
    lemma_records_of_one(s1, doc, j);
}

} // verus!
