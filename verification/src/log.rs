//! Per-topic append-only log storage. A `Topic` holds the in-memory state of
//! one topic: its records in offset order, the next offset to assign, and the
//! offset index mapping each offset to the byte location of its record in the
//! topic's durable backing store. The backing store itself is a byte file
//! owned by the surrounding program; `append` hands back the exact line to
//! persist, and `build_index` reconstructs the whole state from the file's
//! bytes on startup.

use vstd::prelude::*;

use crate::codec::decode_record;
use crate::codec::encode_record;
use crate::codec::lemma_record_line_shape;
use crate::codec::lemma_record_structure;
use crate::codec::spec_record;
use crate::codec::spec_record_line;
use crate::error::NodeError;

verus! {

/// The canonical bytes of the records of `vals` from offset `k` on: one
/// encoded line per record, in offset order.
pub open spec fn spec_store_from(vals: Seq<usize>, k: int) -> Seq<u8>
    decreases vals.len() - k,
{
    if k < 0 || k >= vals.len() {
        Seq::empty()
    } else {
        spec_record_line(k as nat, vals[k] as nat) + spec_store_from(vals, k + 1)
    }
}

/// The canonical backing store of a topic whose records, in offset order,
/// carry the values `vals`.
pub open spec fn spec_store(vals: Seq<usize>) -> Seq<u8> {
    spec_store_from(vals, 0)
}

/// `vals` is the record sequence whose canonical store is `bytes`.
pub open spec fn is_store_of(vals: Seq<usize>, bytes: Seq<u8>) -> bool {
    spec_store(vals) == bytes
}

/// The physical bytes of an arbitrary record sequence: one canonical line
/// per record, in the given order — the lines of a backing store whose
/// records may have been written in any physical order.
pub open spec fn spec_lines_from(recs: Seq<(usize, usize)>, k: int) -> Seq<u8>
    decreases recs.len() - k,
{
    if k < 0 || k >= recs.len() {
        Seq::empty()
    } else {
        spec_record_line(recs[k].0 as nat, recs[k].1 as nat) + spec_lines_from(recs, k + 1)
    }
}

/// `recs` are the records of the lines of `bytes`, in physical order.
pub open spec fn is_lines_of(recs: Seq<(usize, usize)>, bytes: Seq<u8>) -> bool {
    spec_lines_from(recs, 0) == bytes
}

/// The record part of scanned line entries: each line's offset and value.
pub open spec fn recs_of(es: Seq<(usize, usize, u64)>) -> Seq<(usize, usize)> {
    es.map_values(|e: (usize, usize, u64)| (e.0, e.1))
}

/// The value of the last line written for offset `o` (zero when none is).
pub open spec fn last_value(recs: Seq<(usize, usize)>, o: usize) -> usize
    decreases recs.len(),
{
    if recs.len() == 0 {
        0
    } else if recs.last().0 == o {
        recs.last().1
    } else {
        last_value(recs.drop_last(), o)
    }
}

/// The byte location at which the last line written for offset `o` starts.
pub open spec fn last_location(recs: Seq<(usize, usize)>, o: usize) -> int
    decreases recs.len(),
{
    if recs.len() == 0 {
        0
    } else if recs.last().0 == o {
        spec_lines_from(recs.drop_last(), 0).len() as int
    } else {
        last_location(recs.drop_last(), o)
    }
}

/// Some line holds a record for offset `o`.
pub open spec fn has_offset(recs: Seq<(usize, usize)>, o: usize) -> bool {
    exists|j: int| 0 <= j < recs.len() && (#[trigger] recs[j]).0 == o
}

/// The highest offset among the records (zero when there are none).
pub open spec fn max_offset(recs: Seq<(usize, usize)>) -> usize
    decreases recs.len(),
{
    if recs.len() == 0 {
        0
    } else {
        let m = max_offset(recs.drop_last());
        if recs.last().0 > m {
            recs.last().0
        } else {
            m
        }
    }
}

/// `bytes` rebuilds: every line is a canonical record line, and once the
/// last line per offset wins, the offsets reach densely from zero to their
/// maximum, above which the next-offset counter can still sit.
pub open spec fn valid_store(bytes: Seq<u8>) -> bool {
    exists|recs: Seq<(usize, usize)>|
        #[trigger] is_lines_of(recs, bytes) && (recs.len() == 0 || (max_offset(recs) < usize::MAX
            && forall|o: usize| o <= max_offset(recs) ==> has_offset(recs, o)))
}

pub proof fn lemma_lines_from_push(recs: Seq<(usize, usize)>, r: (usize, usize), k: int)
    requires
        0 <= k <= recs.len(),
    ensures
        spec_lines_from(recs.push(r), k) == spec_lines_from(recs, k) + spec_record_line(
            r.0 as nat,
            r.1 as nat,
        ),
    decreases recs.len() - k,
{
    let w = recs.push(r);
    let line = spec_record_line(r.0 as nat, r.1 as nat);
    if k == recs.len() {
        assert(spec_lines_from(w, k + 1) =~= Seq::<u8>::empty());
        assert(spec_lines_from(w, k) =~= spec_lines_from(recs, k) + line);
    } else {
        lemma_lines_from_push(recs, r, k + 1);
        assert(w[k] == recs[k]);
        assert(spec_lines_from(w, k) =~= spec_lines_from(recs, k) + line);
    }
}

pub proof fn lemma_lines_take_succ(recs: Seq<(usize, usize)>, k: int)
    requires
        0 <= k < recs.len(),
    ensures
        spec_lines_from(recs.take(k + 1), 0) == spec_lines_from(recs.take(k), 0)
            + spec_record_line(recs[k].0 as nat, recs[k].1 as nat),
{
    assert(recs.take(k + 1) =~= recs.take(k).push(recs[k]));
    lemma_lines_from_push(recs.take(k), recs[k], 0);
}

pub proof fn lemma_lines_from_len(recs: Seq<(usize, usize)>, k: int)
    requires
        0 <= k <= recs.len(),
    ensures
        spec_lines_from(recs, k).len() >= 25 * (recs.len() - k),
    decreases recs.len() - k,
{
    if k < recs.len() {
        lemma_lines_from_len(recs, k + 1);
        lemma_record_structure(recs[k].0 as nat, recs[k].1 as nat);
    }
}

pub proof fn lemma_lines_take_len(recs: Seq<(usize, usize)>, k: int)
    requires
        0 <= k <= recs.len(),
    ensures
        spec_lines_from(recs.take(k), 0).len() <= spec_lines_from(recs, 0).len(),
    decreases recs.len() - k,
{
    if k == recs.len() {
        assert(recs.take(k) =~= recs);
    } else {
        lemma_lines_take_succ(recs, k);
        lemma_lines_take_len(recs, k + 1);
    }
}

/// Every offset is at most the maximum, and the maximum is an offset.
pub proof fn lemma_max_offset_props(recs: Seq<(usize, usize)>)
    ensures
        forall|j: int| 0 <= j < recs.len() ==> (#[trigger] recs[j]).0 <= max_offset(recs),
        recs.len() > 0 ==> has_offset(recs, max_offset(recs)),
    decreases recs.len(),
{
    if recs.len() > 0 {
        lemma_max_offset_props(recs.drop_last());
        let m = max_offset(recs);
        assert forall|j: int| 0 <= j < recs.len() implies (#[trigger] recs[j]).0 <= m by {
            if j < recs.len() - 1 {
                assert(recs.drop_last()[j] == recs[j]);
            }
        }
        if recs.last().0 >= max_offset(recs.drop_last()) {
            assert(recs[recs.len() - 1].0 == recs.last().0);
        } else {
            assert(recs.drop_last().len() > 0);
            let j = choose|j: int|
                0 <= j < recs.drop_last().len() && (#[trigger] recs.drop_last()[j]).0 == m;
            assert(recs[j].0 == m);
        }
    }
}

/// The position of an offset's final line decides what the rebuild keeps
/// for it: the line's value and its byte location.
pub proof fn lemma_last_entry(recs: Seq<(usize, usize)>, o: usize, j: int)
    requires
        0 <= j < recs.len(),
        recs[j].0 == o,
        forall|q: int| j < q < recs.len() ==> (#[trigger] recs[q]).0 != o,
    ensures
        last_value(recs, o) == recs[j].1,
        last_location(recs, o) == spec_lines_from(recs.take(j), 0).len(),
    decreases recs.len(),
{
    if j == recs.len() - 1 {
        assert(recs.take(j) =~= recs.drop_last());
    } else {
        assert(recs.drop_last()[j] == recs[j]);
        lemma_last_entry(recs.drop_last(), o, j);
        assert(recs.drop_last().take(j) =~= recs.take(j));
    }
}

pub proof fn lemma_store_from_push(vals: Seq<usize>, v: usize, k: int)
    requires
        0 <= k <= vals.len(),
    ensures
        spec_store_from(vals.push(v), k) == spec_store_from(vals, k) + spec_record_line(
            vals.len() as nat,
            v as nat,
        ),
    decreases vals.len() - k,
{
    let w = vals.push(v);
    let line = spec_record_line(vals.len() as nat, v as nat);
    if k == vals.len() {
        assert(spec_store_from(w, k + 1) =~= Seq::<u8>::empty());
        assert(spec_store_from(w, k) =~= spec_store_from(vals, k) + line);
    } else {
        lemma_store_from_push(vals, v, k + 1);
        assert(w[k] == vals[k]);
        assert(spec_store_from(w, k) =~= spec_store_from(vals, k) + line);
    }
}

/// Appending one record extends the canonical store by exactly that record's
/// line: the backing file only ever grows at its end.
pub proof fn lemma_store_append(vals: Seq<usize>, v: usize)
    ensures
        spec_store(vals.push(v)) == spec_store(vals) + spec_record_line(
            vals.len() as nat,
            v as nat,
        ),
{
    lemma_store_from_push(vals, v, 0);
}

pub proof fn lemma_store_take_succ(vals: Seq<usize>, o: int)
    requires
        0 <= o < vals.len(),
    ensures
        spec_store(vals.take(o + 1)) == spec_store(vals.take(o)) + spec_record_line(
            o as nat,
            vals[o] as nat,
        ),
{
    assert(vals.take(o + 1) =~= vals.take(o).push(vals[o]));
    lemma_store_append(vals.take(o), vals[o]);
}

/// Every record line takes at least 25 bytes, so a store holds at least 25
/// bytes per record.
pub proof fn lemma_store_from_len(vals: Seq<usize>, k: int)
    requires
        0 <= k <= vals.len(),
    ensures
        spec_store_from(vals, k).len() >= 25 * (vals.len() - k),
    decreases vals.len() - k,
{
    if k < vals.len() {
        lemma_store_from_len(vals, k + 1);
        lemma_record_structure(k as nat, vals[k] as nat);
    }
}

/// The in-memory state of one topic.
pub struct Topic {
    /// The topic's key.
    pub name: String,
    /// The value of the record at each offset, in offset order.
    pub values: Vec<usize>,
    /// The offset the next appended record will be assigned.
    pub next_offset: usize,
    /// For each offset, the byte location in the backing store at which its
    /// record's line starts.
    pub index: Vec<u64>,
    /// How many bytes the backing store holds.
    pub file_len: u64,
}

impl Topic {
    /// The counter and the index cover exactly the stored records.
    pub open spec fn wf(self) -> bool {
        &&& self.next_offset == self.values@.len()
        &&& self.index@.len() == self.values@.len()
    }

    /// The backing store was written by in-order appends alone: every index
    /// entry points at the canonical location of its record.
    pub open spec fn canonical(self) -> bool {
        &&& self.file_len == spec_store(self.values@).len()
        &&& forall|o: int|
            0 <= o < self.index@.len() ==> self.index@[o] == spec_store(
                self.values@.take(o),
            ).len()
    }

    /// A topic with no records yet.
    pub fn new(name: String) -> (t: Topic)
        ensures
            t.wf(),
            t.canonical(),
            t.name == name,
            t.values@ == Seq::<usize>::empty(),
            t.next_offset == 0,
            t.file_len == 0,
    {
        let t = Topic {
            name,
            values: Vec::new(),
            next_offset: 0,
            index: Vec::new(),
            file_len: 0,
        };
        proof {
            assert(spec_store(t.values@) =~= Seq::<u8>::empty());
        }
        t
    }

    /// Records the byte location of a freshly appended record in the offset
    /// index.
    pub fn update_index(&mut self, location: u64)
        ensures
            final(self).index@ == old(self).index@.push(location),
            final(self).name == old(self).name,
            final(self).values == old(self).values,
            final(self).next_offset == old(self).next_offset,
            final(self).file_len == old(self).file_len,
    {
        self.index.push(location);
    }

    /// Appends one record: assigns the next offset, advances the counter,
    /// indexes the record's byte location, and returns the assigned offset
    /// together with the exact line to persist at the end of the backing
    /// store. Fails only when a counter would no longer fit, and then leaves
    /// the topic untouched.
    pub fn append(&mut self, message: usize) -> (r: Result<(usize, Vec<u8>), NodeError>)
        requires
            old(self).wf(),
        ensures
            final(self).wf(),
            final(self).name == old(self).name,
            r matches Ok(p) ==> ({
                &&& p.0 == old(self).values@.len()
                &&& p.1@ == spec_record_line(p.0 as nat, message as nat)
                &&& final(self).values@ == old(self).values@.push(message)
                &&& final(self).index@ == old(self).index@.push(old(self).file_len)
                &&& final(self).file_len == old(self).file_len + p.1@.len()
                &&& final(self).next_offset == old(self).next_offset + 1
            }),
            r is Err ==> *final(self) == *old(self) && r == Err::<(usize, Vec<u8>), NodeError>(
                NodeError::Storage,
            ),
            r is Ok <==> (old(self).next_offset < usize::MAX && old(self).file_len
                + spec_record_line(old(self).values@.len() as nat, message as nat).len()
                <= u64::MAX),
            old(self).canonical() && r is Ok ==> final(self).canonical(),
    {
        if self.next_offset == usize::MAX {
            return Err(NodeError::Storage);
        }
        let line = encode_record(self.next_offset, message);
        let line_len = line.len() as u64;
        if self.file_len > u64::MAX - line_len {
            return Err(NodeError::Storage);
        }
        let off = self.next_offset;
        let location = self.file_len;
        self.values.push(message);
        self.update_index(location);
        self.file_len = self.file_len + line_len;
        self.next_offset = self.next_offset + 1;
        proof {
            if old(self).canonical() {
                lemma_store_append(old(self).values@, message);
                let vnew = self.values@;
                let vold = old(self).values@;
                assert forall|o: int| 0 <= o < self.index@.len() implies self.index@[o]
                    == spec_store(vnew.take(o)).len() by {
                    if o < vold.len() {
                        assert(vnew.take(o) =~= vold.take(o));
                    } else {
                        assert(vnew.take(o) =~= vold);
                    }
                }
            }
        }
        Ok((off, line))
    }

    /// The records served for a read starting at `start`: empty when that
    /// offset has not been written yet, otherwise every record from `start`
    /// through the last one, in ascending offset order with no gaps.
    pub open spec fn spec_read_from(vals: Seq<usize>, start: int) -> Seq<(usize, usize)> {
        if 0 <= start < vals.len() {
            Seq::new((vals.len() - start) as nat, |i: int| (((start + i) as usize, vals[start + i])))
        } else {
            Seq::empty()
        }
    }

    /// Serves a read beginning at offset `start`.
    pub fn read_from(&self, start: usize) -> (r: Vec<(usize, usize)>)
        requires
            self.wf(),
        ensures
            r@ == Topic::spec_read_from(self.values@, start as int),
            start >= self.values@.len() ==> r@ == Seq::<(usize, usize)>::empty(),
    {
        let mut r: Vec<(usize, usize)> = Vec::new();
        if start >= self.values.len() {
            proof {
                assert(r@ =~= Topic::spec_read_from(self.values@, start as int));
            }
            return r;
        }
        let mut o = start;
        while o < self.values.len()
            invariant
                self.wf(),
                start <= o <= self.values@.len(),
                start < self.values@.len(),
                r@.len() == o - start,
                forall|i: int|
                    0 <= i < r@.len() ==> r@[i] == (((start + i) as usize, self.values@[start
                        + i])),
            decreases self.values@.len() - o,
        {
            let v = self.values[o];
            r.push((o, v));
            o = o + 1;
        }
        proof {
            assert(r@ =~= Topic::spec_read_from(self.values@, start as int));
        }
        r
    }
}

/// Reading a topic from offset zero yields exactly the appended values,
/// paired with the dense offsets `0, 1, 2, …` in append order.
pub proof fn lemma_read_all(vals: Seq<usize>)
    ensures
        Topic::spec_read_from(vals, 0) == Seq::new(vals.len(), |i: int| (i as usize, vals[i])),
{
    assert(Topic::spec_read_from(vals, 0) =~= Seq::new(
        vals.len(),
        |i: int| (i as usize, vals[i]),
    ));
}

/// Prefixes of the record sequence never take more store bytes than the
/// whole.
pub proof fn lemma_store_take_len(vals: Seq<usize>, k: int)
    requires
        0 <= k <= vals.len(),
    ensures
        spec_store(vals.take(k)).len() <= spec_store(vals).len(),
    decreases vals.len() - k,
{
    if k == vals.len() {
        assert(vals.take(k) =~= vals);
    } else {
        lemma_store_take_succ(vals, k);
        lemma_store_take_len(vals, k + 1);
    }
}

/// Splits a backing store into its record lines and decodes each one,
/// yielding per physical line the record's offset and value and the byte
/// location at which the line starts. Fails on a truncated or undecodable
/// line. On a store written by in-order appends, line `k` holds record `k`.
#[verifier::loop_isolation(false)]
#[verifier::rlimit(80)]
fn scan_lines(bytes: &Vec<u8>) -> (r: Result<Vec<(usize, usize, u64)>, NodeError>)
    ensures
        r matches Err(e) ==> e == NodeError::CorruptLog,
        r matches Ok(es) ==> is_lines_of(recs_of(es@), bytes@),
        forall|recs: Seq<(usize, usize)>|
            #[trigger] is_lines_of(recs, bytes@) ==> ({
                &&& r matches Ok(es)
                &&& es@.len() == recs.len()
                &&& forall|k: int|
                    0 <= k < es@.len() ==> #[trigger] es@[k] == ((
                        recs[k].0,
                        recs[k].1,
                        spec_lines_from(recs.take(k), 0).len() as u64,
                    ))
            }),
        forall|vals: Seq<usize>|
            #[trigger] is_store_of(vals, bytes@) ==> ({
                &&& r matches Ok(es)
                &&& es@.len() == vals.len()
                &&& forall|k: int|
                    0 <= k < es@.len() ==> #[trigger] es@[k] == ((
                        k as usize,
                        vals[k],
                        spec_store(vals.take(k)).len() as u64,
                    ))
            }),
{
    let n = bytes.len();
    let mut entries: Vec<(usize, usize, u64)> = Vec::new();
    let mut pos: usize = 0;
    proof {
        assert forall|vals: Seq<usize>| is_store_of(vals, bytes@) implies bytes@.skip(0)
            == spec_store_from(vals, 0) && 0 == spec_store(vals.take(0)).len() by {
            assert(bytes@.skip(0) =~= bytes@);
            assert(vals.take(0) =~= Seq::<usize>::empty());
            assert(spec_store(vals.take(0)) =~= Seq::<u8>::empty());
        }
        assert forall|recs: Seq<(usize, usize)>| is_lines_of(recs, bytes@) implies bytes@.skip(0)
            == spec_lines_from(recs, 0) && 0 == spec_lines_from(recs.take(0), 0).len() by {
            assert(bytes@.skip(0) =~= bytes@);
            assert(recs.take(0) =~= Seq::<(usize, usize)>::empty());
            assert(spec_lines_from(recs.take(0), 0) =~= Seq::<u8>::empty());
        }
        assert(recs_of(entries@) =~= Seq::<(usize, usize)>::empty());
        assert(spec_lines_from(recs_of(entries@), 0) =~= bytes@.take(0));
    }
    while pos < n
        invariant
            0 <= pos <= n,
            forall|vals: Seq<usize>|
                #[trigger] is_store_of(vals, bytes@) ==> ({
                    &&& entries@.len() <= vals.len()
                    &&& bytes@.skip(pos as int) == spec_store_from(vals, entries@.len() as int)
                    &&& pos == spec_store(vals.take(entries@.len() as int)).len()
                    &&& forall|k: int|
                        0 <= k < entries@.len() ==> #[trigger] entries@[k] == ((
                            k as usize,
                            vals[k],
                            spec_store(vals.take(k)).len() as u64,
                        ))
                }),
            spec_lines_from(recs_of(entries@), 0) == bytes@.take(pos as int),
            forall|recs: Seq<(usize, usize)>|
                #[trigger] is_lines_of(recs, bytes@) ==> ({
                    &&& entries@.len() <= recs.len()
                    &&& bytes@.skip(pos as int) == spec_lines_from(recs, entries@.len() as int)
                    &&& pos == spec_lines_from(recs.take(entries@.len() as int), 0).len()
                    &&& forall|k: int|
                        0 <= k < entries@.len() ==> #[trigger] entries@[k] == ((
                            recs[k].0,
                            recs[k].1,
                            spec_lines_from(recs.take(k), 0).len() as u64,
                        ))
                }),
        decreases n - pos,
    {
        let ghost cnt = entries@.len() as int;
        proof {
            // under the hypothesis that the store is canonical, the current
            // line is the record line of offset `cnt`
            assert forall|vals: Seq<usize>| is_store_of(vals, bytes@) implies cnt < vals.len()
                && bytes@.skip(pos as int) == spec_record_line(cnt as nat, vals[cnt] as nat)
                + spec_store_from(vals, cnt + 1) by {
                if cnt == vals.len() {
                    assert(spec_store_from(vals, cnt) =~= Seq::<u8>::empty());
                    assert(bytes@.skip(pos as int).len() == n - pos);
                }
            }
            assert forall|recs: Seq<(usize, usize)>| is_lines_of(recs, bytes@) implies cnt
                < recs.len() && bytes@.skip(pos as int) == spec_record_line(
                recs[cnt].0 as nat,
                recs[cnt].1 as nat,
            ) + spec_lines_from(recs, cnt + 1) by {
                if cnt == recs.len() {
                    assert(spec_lines_from(recs, cnt) =~= Seq::<u8>::empty());
                    assert(bytes@.skip(pos as int).len() == n - pos);
                }
            }
        }
        // find the end of the current line
        let mut j = pos;
        while j < n && bytes[j] != 10
            invariant
                pos <= j <= n,
                forall|q: int| pos <= q < j ==> bytes@[q] != 10,
            decreases n - j,
        {
            j = j + 1;
        }
        if j >= n {
            // the store ends inside an unterminated line
            proof {
                assert forall|vals: Seq<usize>| !is_store_of(vals, bytes@) by {
                    if is_store_of(vals, bytes@) {
                        let body = spec_record(cnt as nat, vals[cnt] as nat);
                        lemma_record_line_shape(cnt as nat, vals[cnt] as nat);
                        assert(bytes@.skip(pos as int)[body.len() as int] == 10);
                        assert(bytes@[pos + body.len()] == 10);
                        assert(pos + body.len() < n);
                    }
                }
                assert forall|recs: Seq<(usize, usize)>| !is_lines_of(recs, bytes@) by {
                    if is_lines_of(recs, bytes@) {
                        let body = spec_record(recs[cnt].0 as nat, recs[cnt].1 as nat);
                        lemma_record_line_shape(recs[cnt].0 as nat, recs[cnt].1 as nat);
                        assert(bytes@.skip(pos as int)[body.len() as int] == 10);
                        assert(bytes@[pos + body.len()] == 10);
                        assert(pos + body.len() < n);
                    }
                }
            }
            return Err(NodeError::CorruptLog);
        }
        let mut line: Vec<u8> = Vec::new();
        let mut q = pos;
        while q < j
            invariant
                pos <= q <= j < n,
                line@.len() == q - pos,
                forall|i: int| 0 <= i < line@.len() ==> line@[i] == bytes@[pos + i],
            decreases j - q,
        {
            let b = bytes[q];
            line.push(b);
            q = q + 1;
        }
        proof {
            // under the hypothesis, the line just cut out is the canonical
            // body of record `cnt`
            assert forall|vals: Seq<usize>| is_store_of(vals, bytes@) implies line@
                == spec_record(cnt as nat, vals[cnt] as nat) && j == pos + spec_record(
                cnt as nat,
                vals[cnt] as nat,
            ).len() by {
                let body = spec_record(cnt as nat, vals[cnt] as nat);
                lemma_record_line_shape(cnt as nat, vals[cnt] as nat);
                assert forall|i: int| 0 <= i < body.len() implies bytes@[pos + i] == body[i]
                    && bytes@[pos + i] != 10 by {
                    assert(bytes@.skip(pos as int)[i] == spec_record_line(
                        cnt as nat,
                        vals[cnt] as nat,
                    )[i]);
                }
                let lineb = spec_record_line(cnt as nat, vals[cnt] as nat);
                assert(bytes@.skip(pos as int)[body.len() as int] == lineb[body.len() as int]);
                assert(lineb[body.len() as int] == lineb.last());
                assert(bytes@.skip(pos as int)[body.len() as int] == bytes@[pos + body.len()]);
                assert(bytes@[pos + body.len()] == 10);
                assert(j <= pos + body.len());
                if j < pos + body.len() {
                    assert(bytes@.skip(pos as int)[j - pos] == lineb[j - pos]);
                    assert(lineb[j - pos] != 10);
                    assert(false);
                }
                assert(line@ =~= body);
            }
            assert forall|recs: Seq<(usize, usize)>| is_lines_of(recs, bytes@) implies line@
                == spec_record(recs[cnt].0 as nat, recs[cnt].1 as nat) && j == pos + spec_record(
                recs[cnt].0 as nat,
                recs[cnt].1 as nat,
            ).len() by {
                let body = spec_record(recs[cnt].0 as nat, recs[cnt].1 as nat);
                lemma_record_line_shape(recs[cnt].0 as nat, recs[cnt].1 as nat);
                assert forall|i: int| 0 <= i < body.len() implies bytes@[pos + i] == body[i]
                    && bytes@[pos + i] != 10 by {
                    assert(bytes@.skip(pos as int)[i] == spec_record_line(
                        recs[cnt].0 as nat,
                        recs[cnt].1 as nat,
                    )[i]);
                }
                let lineb = spec_record_line(recs[cnt].0 as nat, recs[cnt].1 as nat);
                assert(bytes@.skip(pos as int)[body.len() as int] == lineb[body.len() as int]);
                assert(lineb[body.len() as int] == lineb.last());
                assert(bytes@.skip(pos as int)[body.len() as int] == bytes@[pos + body.len()]);
                assert(bytes@[pos + body.len()] == 10);
                assert(j <= pos + body.len());
                if j < pos + body.len() {
                    assert(bytes@.skip(pos as int)[j - pos] == lineb[j - pos]);
                    assert(lineb[j - pos] != 10);
                    assert(false);
                }
                assert(line@ =~= body);
            }
        }
        match decode_record(&line) {
            None => {
                proof {
                    assert forall|vals: Seq<usize>| !is_store_of(vals, bytes@) by {
                        if is_store_of(vals, bytes@) {
                            lemma_store_from_len(vals, 0);
                            assert(vals.len() <= n);
                            assert(line@ == spec_record(
                                (cnt as usize) as nat,
                                vals[cnt] as nat,
                            ));
                        }
                    }
                    assert forall|recs: Seq<(usize, usize)>| !is_lines_of(recs, bytes@) by {
                        if is_lines_of(recs, bytes@) {
                            assert(line@ == spec_record(
                                recs[cnt].0 as nat,
                                recs[cnt].1 as nat,
                            ));
                        }
                    }
                }
                return Err(NodeError::CorruptLog);
            },
            Some(p) => {
                let ghost old_entries = entries@;
                let ghost old_pos = pos as int;
                entries.push((p.0, p.1, pos as u64));
                pos = j + 1;
                proof {
                    assert forall|vals: Seq<usize>| is_store_of(vals, bytes@) implies ({
                        &&& entries@.len() <= vals.len()
                        &&& bytes@.skip(pos as int) == spec_store_from(vals, entries@.len() as int)
                        &&& pos == spec_store(vals.take(entries@.len() as int)).len()
                        &&& forall|k: int|
                            0 <= k < entries@.len() ==> #[trigger] entries@[k] == ((
                                k as usize,
                                vals[k],
                                spec_store(vals.take(k)).len() as u64,
                            ))
                    }) by {
                        let body = spec_record(cnt as nat, vals[cnt] as nat);
                        let lineb = spec_record_line(cnt as nat, vals[cnt] as nat);
                        lemma_record_line_shape(cnt as nat, vals[cnt] as nat);
                        lemma_store_from_len(vals, 0);
                        assert(vals.len() <= n);
                        assert(line@ == spec_record((cnt as usize) as nat, vals[cnt] as nat));
                        assert(p == ((cnt as usize, vals[cnt])));
                        lemma_store_take_succ(vals, cnt);
                        assert(pos == old_pos + lineb.len());
                        assert(bytes@.skip(pos as int) =~= bytes@.skip(old_pos).skip(
                            lineb.len() as int,
                        ));
                        assert(bytes@.skip(old_pos).skip(lineb.len() as int) =~= spec_store_from(
                            vals,
                            cnt + 1,
                        ));
                        assert forall|k: int| 0 <= k < entries@.len() implies #[trigger] entries@[k]
                            == ((k as usize, vals[k], spec_store(vals.take(k)).len() as u64)) by {
                            if k < cnt {
                                assert(entries@[k] == old_entries[k]);
                            } else {
                                assert(entries@[k] == ((cnt as usize, vals[cnt], old_pos as u64)));
                            }
                        }
                    }
                    // the scanned prefix stays the lines of the entries so far
                    let old_recs = recs_of(old_entries);
                    assert(recs_of(entries@) =~= old_recs.push((p.0, p.1)));
                    lemma_lines_from_push(old_recs, (p.0, p.1), 0);
                    lemma_record_line_shape(p.0 as nat, p.1 as nat);
                    assert(spec_record_line(p.0 as nat, p.1 as nat) =~= line@ + seq![10u8]);
                    assert(bytes@.take(pos as int) =~= bytes@.take(old_pos) + line@ + seq![10u8]);
                    assert(spec_lines_from(recs_of(entries@), 0) =~= bytes@.take(pos as int));
                    assert forall|recs: Seq<(usize, usize)>| is_lines_of(recs, bytes@) implies ({
                        &&& entries@.len() <= recs.len()
                        &&& bytes@.skip(pos as int) == spec_lines_from(recs, entries@.len() as int)
                        &&& pos == spec_lines_from(recs.take(entries@.len() as int), 0).len()
                        &&& forall|k: int|
                            0 <= k < entries@.len() ==> #[trigger] entries@[k] == ((
                                recs[k].0,
                                recs[k].1,
                                spec_lines_from(recs.take(k), 0).len() as u64,
                            ))
                    }) by {
                        let lineb = spec_record_line(recs[cnt].0 as nat, recs[cnt].1 as nat);
                        lemma_record_line_shape(recs[cnt].0 as nat, recs[cnt].1 as nat);
                        lemma_lines_from_len(recs, 0);
                        assert(recs.len() <= n);
                        assert(line@ == spec_record(recs[cnt].0 as nat, recs[cnt].1 as nat));
                        assert(p == ((recs[cnt].0, recs[cnt].1)));
                        lemma_lines_take_succ(recs, cnt);
                        assert(pos == old_pos + lineb.len());
                        assert(bytes@.skip(pos as int) =~= bytes@.skip(old_pos).skip(
                            lineb.len() as int,
                        ));
                        assert(bytes@.skip(old_pos).skip(lineb.len() as int) =~= spec_lines_from(
                            recs,
                            cnt + 1,
                        ));
                        assert forall|k: int| 0 <= k < entries@.len() implies #[trigger] entries@[k]
                            == ((recs[k].0, recs[k].1, spec_lines_from(
                            recs.take(k),
                            0,
                        ).len() as u64)) by {
                            if k < cnt {
                                assert(entries@[k] == old_entries[k]);
                            } else {
                                assert(entries@[k] == ((recs[cnt].0, recs[cnt].1, old_pos as u64)));
                            }
                        }
                    }
                }
            },
        }
    }
    proof {
        assert forall|vals: Seq<usize>| is_store_of(vals, bytes@) implies entries@.len()
            == vals.len() by {
            if entries@.len() < vals.len() {
                lemma_store_from_len(vals, entries@.len() as int);
                assert(bytes@.skip(pos as int).len() == 0);
            }
        }
        assert forall|recs: Seq<(usize, usize)>| is_lines_of(recs, bytes@) implies entries@.len()
            == recs.len() by {
            if entries@.len() < recs.len() {
                lemma_lines_from_len(recs, entries@.len() as int);
                assert(bytes@.skip(pos as int).len() == 0);
            }
        }
        assert(bytes@.take(pos as int) =~= bytes@);
    }
    Ok(entries)
}

/// Rebuilds a topic's in-memory state from its backing store's bytes: the
/// records, the offset index pointing at each record's line, and the
/// next-offset counter at one past the highest offset seen (zero for an
/// empty store). A malformed line or a missing offset fails the rebuild;
/// when one offset was written more than once, the last line wins. A store
/// produced by in-order appends rebuilds to exactly the state the appends
/// left behind.
#[verifier::loop_isolation(false)]
#[verifier::rlimit(80)]
pub fn build_index(name: String, bytes: &Vec<u8>) -> (r: Result<Topic, NodeError>)
    ensures
        r matches Ok(t) ==> t.wf() && t.name == name && t.file_len == bytes@.len(),
        r matches Err(e) ==> e == NodeError::CorruptLog,
        r is Ok <==> valid_store(bytes@),
        forall|vals: Seq<usize>|
            #[trigger] is_store_of(vals, bytes@) ==> ({
                &&& r matches Ok(t)
                &&& t.values@ == vals
                &&& t.next_offset == vals.len()
                &&& t.canonical()
            }),
        forall|recs: Seq<(usize, usize)>|
            #[trigger] is_lines_of(recs, bytes@) ==> (r matches Ok(t) ==> ({
                &&& t.values@.len() == (if recs.len() == 0 {
                    0int
                } else {
                    max_offset(recs) + 1
                })
                &&& forall|i: int|
                    0 <= i < t.values@.len() ==> #[trigger] t.values@[i] == last_value(
                        recs,
                        i as usize,
                    )
                &&& forall|i: int|
                    0 <= i < t.index@.len() ==> #[trigger] t.index@[i] == last_location(
                        recs,
                        i as usize,
                    )
            })),
{
    let entries = match scan_lines(bytes) {
        Ok(es) => es,
        Err(_) => {
            proof {
                assert forall|recs: Seq<(usize, usize)>| !is_lines_of(recs, bytes@) by {
                    if is_lines_of(recs, bytes@) {
                    }
                }
                assert(!valid_store(bytes@));
            }
            return Err(NodeError::CorruptLog);
        },
    };
    let n = bytes.len();
    if entries.len() == 0 {
        let t = Topic {
            name,
            values: Vec::new(),
            next_offset: 0,
            index: Vec::new(),
            file_len: n as u64,
        };
        proof {
            assert forall|vals: Seq<usize>| is_store_of(vals, bytes@) implies t.values@ == vals
                && t.canonical() by {
                assert(vals.len() == 0);
                assert(vals =~= Seq::<usize>::empty());
                assert(t.values@ =~= vals);
            }
            assert(recs_of(entries@) =~= Seq::<(usize, usize)>::empty());
            assert(is_lines_of(recs_of(entries@), bytes@));
            assert(valid_store(bytes@));
        }
        return Ok(t);
    }
    // the highest offset present decides the next-offset counter
    let mut max: usize = 0;
    let mut k: usize = 0;
    while k < entries.len()
        invariant
            0 <= k <= entries@.len(),
            forall|i: int| 0 <= i < k ==> entries@[i].0 <= max,
            max == 0 || exists|i: int| 0 <= i < k && entries@[i].0 == max,
        decreases entries@.len() - k,
    {
        let e0 = entries[k].0;
        if e0 > max {
            max = e0;
        }
        k = k + 1;
    }
    proof {
        assert forall|vals: Seq<usize>| is_store_of(vals, bytes@) implies max + 1 == vals.len()
            && max < usize::MAX by {
            lemma_store_from_len(vals, 0);
            assert(entries@[vals.len() - 1].0 == vals.len() - 1);
            assert(vals.len() - 1 <= max);
        }
        assert forall|recs: Seq<(usize, usize)>| is_lines_of(recs, bytes@) implies max
            == max_offset(recs) && recs.len() == entries@.len() by {
            lemma_max_offset_props(recs);
            assert forall|i: int| 0 <= i < entries@.len() implies entries@[i].0 <= max_offset(
                recs,
            ) by {
                assert(entries@[i] == ((
                    recs[i].0,
                    recs[i].1,
                    spec_lines_from(recs.take(i), 0).len() as u64,
                )));
            }
            if max != 0 {
                let i = choose|i: int| 0 <= i < entries@.len() && entries@[i].0 == max;
                assert(entries@[i].0 <= max_offset(recs));
            }
            let j = choose|j: int| 0 <= j < recs.len() && (#[trigger] recs[j]).0 == max_offset(
                recs,
            );
            assert(entries@[j] == ((
                recs[j].0,
                recs[j].1,
                spec_lines_from(recs.take(j), 0).len() as u64,
            )));
            assert(entries@[j].0 <= max);
        }
    }
    if max == usize::MAX {
        // the next-offset counter could not be represented
        proof {
            assert forall|recs: Seq<(usize, usize)>| is_lines_of(recs, bytes@) implies !(
            recs.len() == 0 || (max_offset(recs) < usize::MAX && forall|o2: usize|
                o2 <= max_offset(recs) ==> has_offset(recs, o2))) by {
                assert(max_offset(recs) == max);
            }
            assert(!valid_store(bytes@));
        }
        return Err(NodeError::CorruptLog);
    }
    let count = max + 1;
    let mut values: Vec<usize> = Vec::new();
    let mut index: Vec<u64> = Vec::new();
    let mut o: usize = 0;
    while o < count
        invariant
            0 <= o <= count,
            values@.len() == o,
            index@.len() == o,
            forall|vals: Seq<usize>|
                #[trigger] is_store_of(vals, bytes@) ==> ({
                    &&& forall|i: int| 0 <= i < o ==> #[trigger] values@[i] == vals[i]
                    &&& forall|i: int|
                        0 <= i < o ==> #[trigger] index@[i] == spec_store(
                            vals.take(i),
                        ).len() as u64
                }),
            forall|o2: int| 0 <= o2 < o ==> #[trigger] has_offset(recs_of(entries@), o2 as usize),
            forall|recs: Seq<(usize, usize)>|
                #[trigger] is_lines_of(recs, bytes@) ==> ({
                    &&& forall|i: int|
                        0 <= i < o ==> #[trigger] values@[i] == last_value(recs, i as usize)
                    &&& forall|i: int|
                        0 <= i < o ==> #[trigger] index@[i] == last_location(recs, i as usize)
                }),
        decreases count - o,
    {
        // take the last line written for this offset
        let mut found = false;
        let mut val: usize = 0;
        let mut loc: u64 = 0;
        let ghost mut jhit: int = 0;
        let mut s: usize = 0;
        while s < entries.len()
            invariant
                0 <= s <= entries@.len(),
                forall|vals: Seq<usize>|
                    #[trigger] is_store_of(vals, bytes@) ==> (s > o ==> found && val == vals[o as int] && loc
                        == spec_store(vals.take(o as int)).len() as u64),
                !found ==> forall|q: int| 0 <= q < s ==> (#[trigger] entries@[q]).0 != o,
                found ==> 0 <= jhit < s && entries@[jhit].0 == o && val == entries@[jhit].1 && loc
                    == entries@[jhit].2 && (forall|q: int|
                    jhit < q < s ==> (#[trigger] entries@[q]).0 != o),
            decreases entries@.len() - s,
        {
            let e = entries[s];
            if e.0 == o {
                found = true;
                val = e.1;
                loc = e.2;
                proof {
                    jhit = s as int;
                }
            }
            s = s + 1;
        }
        if !found {
            // a gap: some offset below the highest one has no record
            proof {
                assert forall|vals: Seq<usize>| !is_store_of(vals, bytes@) by {
                    if is_store_of(vals, bytes@) {
                        assert(s == entries@.len());
                        assert(s > o);
                    }
                }
                assert forall|recs: Seq<(usize, usize)>| is_lines_of(recs, bytes@) implies !(
                recs.len() == 0 || (max_offset(recs) < usize::MAX && forall|o2: usize|
                    o2 <= max_offset(recs) ==> has_offset(recs, o2))) by {
                    assert forall|q: int| 0 <= q < recs.len() implies (#[trigger] recs[q]).0
                        != o by {
                        assert(entries@[q] == ((
                            recs[q].0,
                            recs[q].1,
                            spec_lines_from(recs.take(q), 0).len() as u64,
                        )));
                    }
                    assert(!has_offset(recs, o));
                    assert(o <= max_offset(recs));
                }
                assert(!valid_store(bytes@));
            }
            return Err(NodeError::CorruptLog);
        }
        values.push(val);
        index.push(loc);
        proof {
            assert(recs_of(entries@)[jhit] == ((entries@[jhit].0, entries@[jhit].1)));
            assert forall|recs: Seq<(usize, usize)>| is_lines_of(recs, bytes@) implies val
                == last_value(recs, o) && loc == last_location(recs, o) by {
                assert(entries@[jhit] == ((
                    recs[jhit].0,
                    recs[jhit].1,
                    spec_lines_from(recs.take(jhit), 0).len() as u64,
                )));
                assert forall|q: int| jhit < q < recs.len() implies (#[trigger] recs[q]).0
                    != o by {
                    assert(entries@[q] == ((
                        recs[q].0,
                        recs[q].1,
                        spec_lines_from(recs.take(q), 0).len() as u64,
                    )));
                }
                lemma_last_entry(recs, o, jhit);
                lemma_lines_take_len(recs, jhit);
                lemma_lines_from_len(recs, 0);
            }
        }
        o = o + 1;
    }
    let t = Topic { name, values, next_offset: count, index, file_len: n as u64 };
    proof {
        assert forall|vals: Seq<usize>| is_store_of(vals, bytes@) implies t.values@ == vals
            && t.next_offset == vals.len() && t.canonical() by {
            assert(t.values@ =~= vals);
            assert forall|i: int| 0 <= i < t.index@.len() implies t.index@[i] == spec_store(
                t.values@.take(i),
            ).len() by {
                lemma_store_take_len(vals, i);
                assert(t.index@[i] == spec_store(vals.take(i)).len() as u64);
            }
        }
        // the file's own record lines are a witness that the store rebuilds
        let wrecs = recs_of(entries@);
        assert(is_lines_of(wrecs, bytes@));
        assert(wrecs.len() == entries@.len());
        assert(max == max_offset(wrecs));
        assert forall|o2: usize| o2 <= max_offset(wrecs) implies has_offset(wrecs, o2) by {
            let o2i: int = o2 as int;
            assert(0 <= o2i < count);
            assert(has_offset(recs_of(entries@), o2i as usize));
        }
        assert(valid_store(bytes@));
    }
    Ok(t)
}

} // verus!
