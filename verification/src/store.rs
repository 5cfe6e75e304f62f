//! Time-ordered claim store: named sets of unique byte-string members ordered
//! by a numeric score, plus named append-only immediate queues.
//!
//! This is the shared synchronization primitive of the dispatchers: `claim`
//! removes a member atomically (at most one caller can win it) and `advance`
//! is the compare-and-set that rolls a recurring definition forward without
//! deleting it.  The model keeps each set sorted by score with insertion
//! order stable among equal scores.

use vstd::prelude::*;

use crate::wire::bytes_eq;
use crate::wire::clone_bytes;

verus! {

/// Model of one time-ordered set: members with scores, ascending by score.
pub type Entries = Seq<(Seq<u8>, u64)>;

/// Mathematical model of the whole store: association lists of named sets
/// and named queues, unique keys each.
#[verifier::ext_equal]
pub struct StoreModel {
    pub sets: Seq<(Seq<u8>, Entries)>,
    pub queues: Seq<(Seq<u8>, Seq<Seq<u8>>)>,
}

/// First index at or after `i` whose key is `k`, or the length.
pub open spec fn key_idx<T>(s: Seq<(Seq<u8>, T)>, k: Seq<u8>, i: int) -> int
    decreases s.len() - i,
{
    if i < 0 || i >= s.len() {
        s.len() as int
    } else if s[i].0 == k {
        i
    } else {
        key_idx(s, k, i + 1)
    }
}

/// What `key_idx` returns: the first match, or the length when absent.
pub proof fn lemma_key_idx<T>(s: Seq<(Seq<u8>, T)>, k: Seq<u8>, i: int)
    requires
        0 <= i <= s.len(),
    ensures
        i <= key_idx(s, k, i) <= s.len(),
        key_idx(s, k, i) < s.len() ==> s[key_idx(s, k, i)].0 == k,
        forall|l: int| i <= l < key_idx(s, k, i) ==> (#[trigger] s[l]).0 != k,
    decreases s.len() - i,
{
    if i < s.len() && s[i].0 != k {
        lemma_key_idx(s, k, i + 1);
    }
}

/// A scan that saw no match up to `e` (and a match at `e`, if `e` is not the
/// end) pins `key_idx`.
pub proof fn lemma_key_idx_is<T>(s: Seq<(Seq<u8>, T)>, k: Seq<u8>, e: int)
    requires
        0 <= e <= s.len(),
        forall|l: int| 0 <= l < e ==> (#[trigger] s[l]).0 != k,
        e == s.len() || s[e].0 == k,
    ensures
        key_idx(s, k, 0) == e,
{
    lemma_key_idx_is_rec(s, k, 0, e);
}

proof fn lemma_key_idx_is_rec<T>(s: Seq<(Seq<u8>, T)>, k: Seq<u8>, i: int, e: int)
    requires
        0 <= i <= e <= s.len(),
        forall|l: int| i <= l < e ==> (#[trigger] s[l]).0 != k,
        e == s.len() || s[e].0 == k,
    ensures
        key_idx(s, k, i) == e,
    decreases e - i,
{
    if i < e {
        lemma_key_idx_is_rec(s, k, i + 1, e);
    }
}

/// The entries of the named set; empty when the set does not exist.
pub open spec fn model_set(m: StoreModel, name: Seq<u8>) -> Entries {
    let i = key_idx(m.sets, name, 0);
    if i < m.sets.len() {
        m.sets[i].1
    } else {
        Seq::empty()
    }
}

/// The items of the named queue; empty when the queue does not exist.
pub open spec fn model_queue(m: StoreModel, name: Seq<u8>) -> Seq<Seq<u8>> {
    let i = key_idx(m.queues, name, 0);
    if i < m.queues.len() {
        m.queues[i].1
    } else {
        Seq::empty()
    }
}

/// First index at or after `i` whose score is past `now`, or the length.
/// In a sorted set this is the count of due entries when started at 0.
pub open spec fn due_end(es: Entries, now: u64, i: int) -> int
    decreases es.len() - i,
{
    if i < 0 || i >= es.len() || es[i].1 > now {
        i
    } else {
        due_end(es, now, i + 1)
    }
}

/// What `due_end` returns.
pub proof fn lemma_due_end(es: Entries, now: u64, i: int)
    requires
        0 <= i <= es.len(),
    ensures
        i <= due_end(es, now, i) <= es.len(),
        due_end(es, now, i) < es.len() ==> es[due_end(es, now, i)].1 > now,
        forall|l: int| i <= l < due_end(es, now, i) ==> (#[trigger] es[l]).1 <= now,
    decreases es.len() - i,
{
    if i < es.len() && es[i].1 <= now {
        lemma_due_end(es, now, i + 1);
    }
}

/// Insertion point that keeps ascending score order and puts the new entry
/// after existing entries of equal score.
pub open spec fn ins_pos(es: Entries, score: u64, i: int) -> int
    decreases es.len() - i,
{
    if i < 0 || i >= es.len() || es[i].1 > score {
        i
    } else {
        ins_pos(es, score, i + 1)
    }
}

/// What `ins_pos` returns.
pub proof fn lemma_ins_pos(es: Entries, score: u64, i: int)
    requires
        0 <= i <= es.len(),
    ensures
        i <= ins_pos(es, score, i) <= es.len(),
        ins_pos(es, score, i) < es.len() ==> es[ins_pos(es, score, i)].1 > score,
        forall|l: int| i <= l < ins_pos(es, score, i) ==> (#[trigger] es[l]).1 <= score,
    decreases es.len() - i,
{
    if i < es.len() && es[i].1 <= score {
        lemma_ins_pos(es, score, i + 1);
    }
}

/// Entries sorted ascending by score, members unique.
pub open spec fn entries_wf(es: Entries) -> bool {
    &&& forall|i: int, j: int| 0 <= i < j < es.len() ==> (#[trigger] es[i]).1 <= (#[trigger] es[j]).1
    &&& forall|i: int, j: int| 0 <= i < j < es.len() ==> (#[trigger] es[i]).0 != (#[trigger] es[j]).0
}

/// The store invariant: unique set names, each set well formed, unique
/// queue names.
pub open spec fn model_wf(m: StoreModel) -> bool {
    &&& forall|i: int, j: int|
        0 <= i < j < m.sets.len() ==> (#[trigger] m.sets[i]).0 != (#[trigger] m.sets[j]).0
    &&& forall|i: int| 0 <= i < m.sets.len() ==> entries_wf((#[trigger] m.sets[i]).1)
    &&& forall|i: int, j: int|
        0 <= i < j < m.queues.len() ==> (#[trigger] m.queues[i]).0 != (#[trigger] m.queues[j]).0
}

/// Members due at `now`, ascending by score, skipping `offset`, at most
/// `limit` of them.
pub open spec fn spec_peek(m: StoreModel, name: Seq<u8>, now: u64, offset: int, limit: int)
    -> Seq<Seq<u8>> {
    let es = model_set(m, name);
    let k = due_end(es, now, 0);
    let lo = if offset < k {
        offset
    } else {
        k
    };
    let hi = if offset + limit < k {
        offset + limit
    } else {
        k
    };
    if 0 <= lo <= hi <= es.len() {
        es.subrange(lo, hi).map_values(|e: (Seq<u8>, u64)| e.0)
    } else {
        Seq::empty()
    }
}

/// Atomic remove-if-present: whether the member was there, and the store
/// after removing exactly that one occurrence.
pub open spec fn spec_claim(m: StoreModel, name: Seq<u8>, member: Seq<u8>) -> (bool, StoreModel) {
    let si = key_idx(m.sets, name, 0);
    if si >= m.sets.len() {
        (false, m)
    } else {
        let es = m.sets[si].1;
        let j = key_idx(es, member, 0);
        if j >= es.len() {
            (false, m)
        } else {
            (true, StoreModel { sets: m.sets.update(si, (name, es.remove(j))), queues: m.queues })
        }
    }
}

/// Atomic update-score-if-present: whether the member was there, and the
/// store after moving it to its new score (no mutation when absent).
pub open spec fn spec_advance(m: StoreModel, name: Seq<u8>, member: Seq<u8>, new_score: u64) -> (
    bool,
    StoreModel,
) {
    let si = key_idx(m.sets, name, 0);
    if si >= m.sets.len() {
        (false, m)
    } else {
        let es = m.sets[si].1;
        let j = key_idx(es, member, 0);
        if j >= es.len() {
            (false, m)
        } else {
            let removed = es.remove(j);
            let es2 = removed.insert(ins_pos(removed, new_score, 0), (member, new_score));
            (true, StoreModel { sets: m.sets.update(si, (name, es2)), queues: m.queues })
        }
    }
}

/// Append to the named immediate queue, creating it if needed.
pub open spec fn spec_push(m: StoreModel, name: Seq<u8>, payload: Seq<u8>) -> StoreModel {
    let qi = key_idx(m.queues, name, 0);
    if qi < m.queues.len() {
        StoreModel {
            sets: m.sets,
            queues: m.queues.update(qi, (name, m.queues[qi].1.push(payload))),
        }
    } else {
        StoreModel { sets: m.sets, queues: m.queues.push((name, seq![payload])) }
    }
}

/// Upsert into the named set: any existing occurrence of the member leaves,
/// then the member is inserted at its sorted position with the given score.
pub open spec fn spec_add(m: StoreModel, name: Seq<u8>, member: Seq<u8>, score: u64) -> StoreModel {
    let si = key_idx(m.sets, name, 0);
    if si >= m.sets.len() {
        StoreModel { sets: m.sets.push((name, seq![(member, score)])), queues: m.queues }
    } else {
        let es = m.sets[si].1;
        let j = key_idx(es, member, 0);
        let base = if j < es.len() {
            es.remove(j)
        } else {
            es
        };
        let es2 = base.insert(ins_pos(base, score, 0), (member, score));
        StoreModel { sets: m.sets.update(si, (name, es2)), queues: m.queues }
    }
}

/// Removing an entry keeps a set well formed.
pub proof fn lemma_entries_wf_remove(es: Entries, j: int)
    requires
        entries_wf(es),
        0 <= j < es.len(),
    ensures
        entries_wf(es.remove(j)),
{
    let r = es.remove(j);
    assert forall|a: int, b: int| 0 <= a < b < r.len() implies (#[trigger] r[a]).1
        <= (#[trigger] r[b]).1 && r[a].0 != r[b].0 by {
        let a0 = if a < j {
            a
        } else {
            a + 1
        };
        let b0 = if b < j {
            b
        } else {
            b + 1
        };
        assert(r[a] == es[a0]);
        assert(r[b] == es[b0]);
    }
}

/// Inserting a fresh member at its sorted position keeps a set well formed.
pub proof fn lemma_entries_wf_insert(es: Entries, member: Seq<u8>, score: u64)
    requires
        entries_wf(es),
        forall|l: int| 0 <= l < es.len() ==> (#[trigger] es[l]).0 != member,
    ensures
        entries_wf(es.insert(ins_pos(es, score, 0), (member, score))),
{
    let p = ins_pos(es, score, 0);
    lemma_ins_pos(es, score, 0);
    let r = es.insert(p, (member, score));
    assert forall|a: int, b: int| 0 <= a < b < r.len() implies (#[trigger] r[a]).1
        <= (#[trigger] r[b]).1 && r[a].0 != r[b].0 by {
        if a < p {
            assert(r[a] == es[a]);
        } else if a == p {
            assert(r[a] == (member, score));
        } else {
            assert(r[a] == es[a - 1]);
        }
        if b < p {
            assert(r[b] == es[b]);
        } else if b == p {
            assert(r[b] == (member, score));
        } else {
            assert(r[b] == es[b - 1]);
        }
        if a < p && b > p {
            if p < es.len() {
                assert(es[a].1 <= score || a < p);
            }
        }
    }
}


/// A scan that saw only due entries up to `e` pins `due_end`.
pub proof fn lemma_due_end_is(es: Entries, now: u64, e: int)
    requires
        0 <= e <= es.len(),
        forall|l: int| 0 <= l < e ==> (#[trigger] es[l]).1 <= now,
        e == es.len() || es[e].1 > now,
    ensures
        due_end(es, now, 0) == e,
{
    lemma_due_end_is_rec(es, now, 0, e);
}

proof fn lemma_due_end_is_rec(es: Entries, now: u64, i: int, e: int)
    requires
        0 <= i <= e <= es.len(),
        forall|l: int| i <= l < e ==> (#[trigger] es[l]).1 <= now,
        e == es.len() || es[e].1 > now,
    ensures
        due_end(es, now, i) == e,
    decreases e - i,
{
    if i < e {
        lemma_due_end_is_rec(es, now, i + 1, e);
    }
}

/// A scan that saw only scores at most `score` up to `e` pins `ins_pos`.
pub proof fn lemma_ins_pos_is(es: Entries, score: u64, e: int)
    requires
        0 <= e <= es.len(),
        forall|l: int| 0 <= l < e ==> (#[trigger] es[l]).1 <= score,
        e == es.len() || es[e].1 > score,
    ensures
        ins_pos(es, score, 0) == e,
{
    lemma_ins_pos_is_rec(es, score, 0, e);
}

proof fn lemma_ins_pos_is_rec(es: Entries, score: u64, i: int, e: int)
    requires
        0 <= i <= e <= es.len(),
        forall|l: int| i <= l < e ==> (#[trigger] es[l]).1 <= score,
        e == es.len() || es[e].1 > score,
    ensures
        ins_pos(es, score, i) == e,
    decreases e - i,
{
    if i < e {
        lemma_ins_pos_is_rec(es, score, i + 1, e);
    }
}

/// Model of one executable entry list.
pub open spec fn entries_view(es: Vec<(Vec<u8>, u64)>) -> Entries {
    es@.map_values(|e: (Vec<u8>, u64)| (e.0@, e.1))
}

/// The in-memory store: the reference implementation of the model that the
/// dispatchers are verified against.
pub struct TimeOrderedStore {
    sets: Vec<(Vec<u8>, Vec<(Vec<u8>, u64)>)>,
    queues: Vec<(Vec<u8>, Vec<Vec<u8>>)>,
}

impl View for TimeOrderedStore {
    type V = StoreModel;

    closed spec fn view(&self) -> StoreModel {
        StoreModel {
            sets: self.sets@.map_values(
                |p: (Vec<u8>, Vec<(Vec<u8>, u64)>)| (p.0@, entries_view(p.1)),
            ),
            queues: self.queues@.map_values(
                |q: (Vec<u8>, Vec<Vec<u8>>)| (q.0@, q.1@.map_values(|b: Vec<u8>| b@)),
            ),
        }
    }
}

/// First index of `member` in the entry list, or its length.
fn find_entry(es: &Vec<(Vec<u8>, u64)>, member: &Vec<u8>) -> (r: usize)
    ensures
        r as int == key_idx(entries_view(*es), member@, 0),
        r <= es@.len(),
{
    let mut i: usize = 0;
    while i < es.len()
        invariant
            0 <= i <= es@.len(),
            forall|l: int| 0 <= l < i ==> (#[trigger] entries_view(*es)[l]).0 != member@,
        decreases es@.len() - i,
    {
        if bytes_eq(&es[i].0, member) {
            proof {
                assert(entries_view(*es)[i as int].0 == member@);
                lemma_key_idx_is(entries_view(*es), member@, i as int);
            }
            return i;
        }
        assert(entries_view(*es)[i as int].0 != member@);
        i = i + 1;
    }
    proof {
        lemma_key_idx_is(entries_view(*es), member@, es@.len() as int);
    }
    i
}

/// First position whose score is past `score`, or the length.
fn find_ins_pos(es: &Vec<(Vec<u8>, u64)>, score: u64) -> (r: usize)
    ensures
        r as int == ins_pos(entries_view(*es), score, 0),
        r <= es@.len(),
{
    let mut i: usize = 0;
    while i < es.len()
        invariant
            0 <= i <= es@.len(),
            forall|l: int| 0 <= l < i ==> (#[trigger] entries_view(*es)[l]).1 <= score,
        decreases es@.len() - i,
    {
        if es[i].1 > score {
            proof {
                lemma_ins_pos_is(entries_view(*es), score, i as int);
            }
            return i;
        }
        assert(entries_view(*es)[i as int].1 <= score);
        i = i + 1;
    }
    proof {
        lemma_ins_pos_is(entries_view(*es), score, es@.len() as int);
    }
    i
}

impl TimeOrderedStore {
    /// An empty store.
    pub fn new() -> (r: TimeOrderedStore)
        ensures
            r@.sets.len() == 0,
            r@.queues.len() == 0,
            model_wf(r@),
    {
        TimeOrderedStore { sets: Vec::new(), queues: Vec::new() }
    }

    /// First index of the named set, or the number of sets.
    fn find_set(&self, name: &Vec<u8>) -> (r: usize)
        ensures
            r as int == key_idx(self@.sets, name@, 0),
            r <= self@.sets.len(),
    {
        let mut i: usize = 0;
        while i < self.sets.len()
            invariant
                0 <= i <= self@.sets.len(),
                self@.sets.len() == self.sets@.len(),
                forall|l: int| 0 <= l < i ==> (#[trigger] self@.sets[l]).0 != name@,
            decreases self@.sets.len() - i,
        {
            if bytes_eq(&self.sets[i].0, name) {
                proof {
                    assert(self@.sets[i as int].0 == name@);
                    lemma_key_idx_is(self@.sets, name@, i as int);
                }
                return i;
            }
            assert(self@.sets[i as int].0 != name@);
            i = i + 1;
        }
        proof {
            lemma_key_idx_is(self@.sets, name@, self@.sets.len() as int);
        }
        i
    }

    /// First index of the named queue, or the number of queues.
    fn find_queue(&self, name: &Vec<u8>) -> (r: usize)
        ensures
            r as int == key_idx(self@.queues, name@, 0),
            r <= self@.queues.len(),
    {
        let mut i: usize = 0;
        while i < self.queues.len()
            invariant
                0 <= i <= self@.queues.len(),
                self@.queues.len() == self.queues@.len(),
                forall|l: int| 0 <= l < i ==> (#[trigger] self@.queues[l]).0 != name@,
            decreases self@.queues.len() - i,
        {
            if bytes_eq(&self.queues[i].0, name) {
                proof {
                    assert(self@.queues[i as int].0 == name@);
                    lemma_key_idx_is(self@.queues, name@, i as int);
                }
                return i;
            }
            assert(self@.queues[i as int].0 != name@);
            i = i + 1;
        }
        proof {
            lemma_key_idx_is(self@.queues, name@, self@.queues.len() as int);
        }
        i
    }

    /// Upsert of a member with a score, as `spec_add` describes.
    pub fn add(&mut self, set_name: &Vec<u8>, member: &Vec<u8>, score: u64)
        requires
            model_wf(old(self)@),
        ensures
            final(self)@ == spec_add(old(self)@, set_name@, member@, score),
            model_wf(final(self)@),
    {
        let ghost m0 = self@;
        let si = self.find_set(set_name);
        proof {
            lemma_key_idx(m0.sets, set_name@, 0);
        }
        if si == self.sets.len() {
            let mut es: Vec<(Vec<u8>, u64)> = Vec::new();
            es.push((clone_bytes(member), score));
            self.sets.push((clone_bytes(set_name), es));
            proof {
                assert(entries_view(es) =~= seq![(member@, score)]);
                assert(self@.sets =~= m0.sets.push((set_name@, seq![(member@, score)])));
                assert(self@ =~= spec_add(m0, set_name@, member@, score));
                assert forall|i: int, j: int|
                    0 <= i < j < self@.sets.len() implies (#[trigger] self@.sets[i]).0
                    != (#[trigger] self@.sets[j]).0 by {
                    if j == self@.sets.len() - 1 {
                        assert(self@.sets[i] == m0.sets[i]);
                    }
                }
            }
        } else {
            let mut pair = self.sets.remove(si);
            let ghost es0 = entries_view(pair.1);
            assert(es0 == m0.sets[si as int].1);
            let j = find_entry(&pair.1, member);
            proof {
                lemma_key_idx(es0, member@, 0);
            }
            let ghost base = if (j as int) < es0.len() {
                es0.remove(j as int)
            } else {
                es0
            };
            if j < pair.1.len() {
                pair.1.remove(j);
                assert(entries_view(pair.1) =~= base);
                proof {
                    lemma_entries_wf_remove(es0, j as int);
                }
            } else {
                assert(entries_view(pair.1) =~= base);
            }
            proof {
                assert forall|l: int| 0 <= l < base.len() implies (#[trigger] base[l]).0
                    != member@ by {
                    if (j as int) < es0.len() {
                        let l0 = if l < j {
                            l
                        } else {
                            l + 1
                        };
                        assert(base[l] == es0[l0]);
                    } else {
                        assert(base[l] == es0[l]);
                    }
                }
            }
            let pos = find_ins_pos(&pair.1, score);
            pair.1.insert(pos, (clone_bytes(member), score));
            proof {
                lemma_entries_wf_insert(base, member@, score);
            }
            let ghost es2 = base.insert(ins_pos(base, score, 0), (member@, score));
            assert(entries_view(pair.1) =~= es2);
            self.sets.insert(si, pair);
            proof {
                assert(pair.0@ == set_name@);
                assert(self.sets@ =~= old(self).sets@.update(si as int, pair));
                assert(self@.sets =~= m0.sets.update(si as int, (set_name@, es2)));
                assert(self@ =~= spec_add(m0, set_name@, member@, score));
                assert forall|i: int|
                    0 <= i < self@.sets.len() implies entries_wf(
                    (#[trigger] self@.sets[i]).1,
                ) by {
                    if i != si as int {
                        assert(self@.sets[i] == m0.sets[i]);
                    }
                }
            }
        }
    }

    /// Atomic remove-if-present, as `spec_claim` describes: true exactly when
    /// the member was present, in which case it has left the set.
    pub fn claim(&mut self, set_name: &Vec<u8>, member: &Vec<u8>) -> (r: bool)
        requires
            model_wf(old(self)@),
        ensures
            r == spec_claim(old(self)@, set_name@, member@).0,
            final(self)@ == spec_claim(old(self)@, set_name@, member@).1,
            model_wf(final(self)@),
    {
        let ghost m0 = self@;
        let si = self.find_set(set_name);
        proof {
            lemma_key_idx(m0.sets, set_name@, 0);
        }
        if si == self.sets.len() {
            return false;
        }
        let mut pair = self.sets.remove(si);
        let ghost es0 = entries_view(pair.1);
        assert(es0 == m0.sets[si as int].1);
        let j = find_entry(&pair.1, member);
        if j == pair.1.len() {
            self.sets.insert(si, pair);
            proof {
                assert(self.sets@ =~= old(self).sets@);
                assert(self@ =~= m0);
            }
            return false;
        }
        pair.1.remove(j);
        self.sets.insert(si, pair);
        proof {
            lemma_entries_wf_remove(es0, j as int);
            assert(entries_view(pair.1) =~= es0.remove(j as int));
            assert(pair.0@ == set_name@);
            assert(self.sets@ =~= old(self).sets@.update(si as int, pair));
            assert(self@.sets =~= m0.sets.update(si as int, (set_name@, es0.remove(j as int))));
            assert(self@ =~= spec_claim(m0, set_name@, member@).1);
            assert forall|i: int|
                0 <= i < self@.sets.len() implies entries_wf((#[trigger] self@.sets[i]).1) by {
                if i != si as int {
                    assert(self@.sets[i] == m0.sets[i]);
                }
            }
        }
        true
    }

    /// Atomic update-score-if-present, as `spec_advance` describes: true
    /// exactly when the member was present, in which case its score is now
    /// `new_score`; no mutation otherwise.
    pub fn advance(&mut self, set_name: &Vec<u8>, member: &Vec<u8>, new_score: u64) -> (r: bool)
        requires
            model_wf(old(self)@),
        ensures
            r == spec_advance(old(self)@, set_name@, member@, new_score).0,
            final(self)@ == spec_advance(old(self)@, set_name@, member@, new_score).1,
            model_wf(final(self)@),
    {
        let ghost m0 = self@;
        let si = self.find_set(set_name);
        proof {
            lemma_key_idx(m0.sets, set_name@, 0);
        }
        if si == self.sets.len() {
            return false;
        }
        let mut pair = self.sets.remove(si);
        let ghost es0 = entries_view(pair.1);
        assert(es0 == m0.sets[si as int].1);
        let j = find_entry(&pair.1, member);
        if j == pair.1.len() {
            self.sets.insert(si, pair);
            proof {
                assert(self.sets@ =~= old(self).sets@);
                assert(self@ =~= m0);
            }
            return false;
        }
        pair.1.remove(j);
        let ghost base = es0.remove(j as int);
        assert(entries_view(pair.1) =~= base);
        proof {
            lemma_key_idx(es0, member@, 0);
            lemma_entries_wf_remove(es0, j as int);
            assert forall|l: int| 0 <= l < base.len() implies (#[trigger] base[l]).0
                != member@ by {
                let l0 = if l < j {
                    l
                } else {
                    l + 1
                };
                assert(base[l] == es0[l0]);
            }
        }
        let pos = find_ins_pos(&pair.1, new_score);
        pair.1.insert(pos, (clone_bytes(member), new_score));
        proof {
            lemma_entries_wf_insert(base, member@, new_score);
        }
        let ghost es2 = base.insert(ins_pos(base, new_score, 0), (member@, new_score));
        assert(entries_view(pair.1) =~= es2);
        self.sets.insert(si, pair);
        proof {
            assert(pair.0@ == set_name@);
            assert(self.sets@ =~= old(self).sets@.update(si as int, pair));
            assert(self@.sets =~= m0.sets.update(si as int, (set_name@, es2)));
            assert(self@ =~= spec_advance(m0, set_name@, member@, new_score).1);
            assert forall|i: int|
                0 <= i < self@.sets.len() implies entries_wf((#[trigger] self@.sets[i]).1) by {
                if i != si as int {
                    assert(self@.sets[i] == m0.sets[i]);
                }
            }
        }
        true
    }

    /// Appends to the named immediate queue, as `spec_push` describes.
    pub fn push_immediate(&mut self, queue_name: &Vec<u8>, payload: &Vec<u8>)
        requires
            model_wf(old(self)@),
        ensures
            final(self)@ == spec_push(old(self)@, queue_name@, payload@),
            model_wf(final(self)@),
    {
        let ghost m0 = self@;
        let qi = self.find_queue(queue_name);
        proof {
            lemma_key_idx(m0.queues, queue_name@, 0);
        }
        if qi == self.queues.len() {
            let mut items: Vec<Vec<u8>> = Vec::new();
            items.push(clone_bytes(payload));
            self.queues.push((clone_bytes(queue_name), items));
            proof {
                assert(items@.map_values(|b: Vec<u8>| b@) =~= seq![payload@]);
                assert(self@.queues =~= m0.queues.push((queue_name@, seq![payload@])));
                assert(self@ =~= spec_push(m0, queue_name@, payload@));
                assert forall|i: int, j: int|
                    0 <= i < j < self@.queues.len() implies (#[trigger] self@.queues[i]).0
                    != (#[trigger] self@.queues[j]).0 by {
                    if j == self@.queues.len() - 1 {
                        assert(self@.queues[i] == m0.queues[i]);
                    }
                }
            }
        } else {
            let mut pair = self.queues.remove(qi);
            let ghost q0 = pair.1@.map_values(|b: Vec<u8>| b@);
            pair.1.push(clone_bytes(payload));
            self.queues.insert(qi, pair);
            proof {
                assert(pair.1@.map_values(|b: Vec<u8>| b@) =~= q0.push(payload@));
                assert(pair.0@ == queue_name@);
                assert(self.queues@ =~= old(self).queues@.update(qi as int, pair));
                assert(self@.queues =~= m0.queues.update(
                    qi as int,
                    (queue_name@, q0.push(payload@)),
                ));
                assert(self@ =~= spec_push(m0, queue_name@, payload@));
            }
        }
    }

    /// Due members of a set, ascending by score: at most `limit`, skipping
    /// `offset`, every one with score at most `now`.
    pub fn peek_due(&self, set_name: &Vec<u8>, now: u64, offset: usize, limit: usize) -> (r: Vec<
        Vec<u8>,
    >)
        requires
            model_wf(self@),
        ensures
            r@.map_values(|b: Vec<u8>| b@) == spec_peek(
                self@,
                set_name@,
                now,
                offset as int,
                limit as int,
            ),
            r@.len() <= limit,
            forall|i: int|
                0 <= i < r@.len() ==> exists|j: int|
                    0 <= j < model_set(self@, set_name@).len() && (#[trigger] model_set(
                        self@,
                        set_name@,
                    )[j]).0 == (#[trigger] r@[i])@ && model_set(self@, set_name@)[j].1 <= now,
    {
        let ghost m0 = self@;
        let ghost ev = model_set(m0, set_name@);
        let si = self.find_set(set_name);
        proof {
            lemma_key_idx(m0.sets, set_name@, 0);
            lemma_due_end(ev, now, 0);
        }
        if si == self.sets.len() {
            let out: Vec<Vec<u8>> = Vec::new();
            assert(ev =~= Seq::<(Seq<u8>, u64)>::empty());
            assert(out@.map_values(|b: Vec<u8>| b@) =~= spec_peek(
                m0,
                set_name@,
                now,
                offset as int,
                limit as int,
            ));
            return out;
        }
        let es = &self.sets[si].1;
        assert(entries_view(*es) == ev);
        let n = es.len();
        let start: usize = if offset > n {
            n
        } else {
            offset
        };
        let mut out: Vec<Vec<u8>> = Vec::new();
        let mut idx: usize = start;
        while idx < n && out.len() < limit && es[idx].1 <= now
            invariant
                start <= idx <= n,
                n == ev.len(),
                ev == entries_view(*es),
                out@.len() == idx - start,
                out@.len() <= limit,
                forall|l: int|
                    start <= l < idx ==> (#[trigger] ev[l]).1 <= now && out@[l - start]@
                        == ev[l].0,
            decreases n - idx,
        {
            out.push(clone_bytes(&es[idx].0));
            idx = idx + 1;
        }
        proof {
            let k = due_end(ev, now, 0);
            let off = offset as int;
            let lim = limit as int;
            // Entries before `start` are due whenever the loop advanced at all.
            if idx > start {
                assert(ev[start as int].1 <= now);
                assert forall|l: int| 0 <= l < idx implies (#[trigger] ev[l]).1 <= now by {
                    if l < start as int {
                        assert(ev[l].1 <= ev[start as int].1);
                    }
                }
            }
            if idx < n && out@.len() < limit && ev[idx as int].1 > now {
                if idx > start {
                    lemma_due_end_is(ev, now, idx as int);
                } else {
                    if k > idx as int {
                        assert(ev[idx as int].1 <= now);
                    }
                }
            } else if idx == n {
                if idx > start {
                    lemma_due_end_is(ev, now, n as int);
                }
            }
            assert(out@.map_values(|b: Vec<u8>| b@) =~= spec_peek(m0, set_name@, now, off, lim));
            assert forall|i: int|
                0 <= i < out@.len() implies exists|j: int|
                    0 <= j < ev.len() && (#[trigger] ev[j]).0 == (#[trigger] out@[i])@ && ev[j].1
                    <= now by {
                let j = start as int + i;
                assert(ev[j].0 == out@[i]@ && ev[j].1 <= now);
            }
        }
        out
    }

    /// Number of entries in the named set.
    pub fn set_len(&self, set_name: &Vec<u8>) -> (r: usize)
        ensures
            r == model_set(self@, set_name@).len(),
    {
        let si = self.find_set(set_name);
        if si == self.sets.len() {
            0
        } else {
            self.sets[si].1.len()
        }
    }

    /// The score of a member of a set, if it is there.
    pub fn member_score(&self, set_name: &Vec<u8>, member: &Vec<u8>) -> (r: Option<u64>)
        ensures
            ({
                let es = model_set(self@, set_name@);
                let j = key_idx(es, member@, 0);
                if j < es.len() {
                    r == Some(es[j].1)
                } else {
                    r is None
                }
            }),
    {
        let si = self.find_set(set_name);
        if si == self.sets.len() {
            return None;
        }
        let j = find_entry(&self.sets[si].1, member);
        if j == self.sets[si].1.len() {
            None
        } else {
            Some(self.sets[si].1[j].1)
        }
    }

    /// Number of items in the named immediate queue.
    pub fn queue_len(&self, queue_name: &Vec<u8>) -> (r: usize)
        ensures
            r == model_queue(self@, queue_name@).len(),
    {
        let qi = self.find_queue(queue_name);
        if qi == self.queues.len() {
            0
        } else {
            self.queues[qi].1.len()
        }
    }

    /// A copy of one item of the named immediate queue.
    pub fn queue_item(&self, queue_name: &Vec<u8>, i: usize) -> (r: Vec<u8>)
        requires
            i < model_queue(self@, queue_name@).len(),
        ensures
            r@ == model_queue(self@, queue_name@)[i as int],
    {
        let qi = self.find_queue(queue_name);
        clone_bytes(&self.queues[qi].1[i])
    }
}


/// Whether some entry of the set has member `x`.
pub open spec fn set_has(es: Entries, x: Seq<u8>) -> bool {
    exists|l: int| 0 <= l < es.len() && (#[trigger] es[l]).0 == x
}

/// Claiming is exclusive: once a claim of a member has succeeded, a second
/// claim of the same member finds nothing.  This is the property that lets
/// any number of concurrent dispatchers race on one entry while exactly one
/// of them wins it.
pub proof fn lemma_claim_exclusive(m: StoreModel, set: Seq<u8>, member: Seq<u8>)
    requires
        model_wf(m),
    ensures
        spec_claim(m, set, member).0 ==> !spec_claim(spec_claim(m, set, member).1, set, member).0,
{
    let c1 = spec_claim(m, set, member);
    if c1.0 {
        let si = key_idx(m.sets, set, 0);
        lemma_key_idx(m.sets, set, 0);
        let es = m.sets[si].1;
        let j = key_idx(es, member, 0);
        lemma_key_idx(es, member, 0);
        let m1 = c1.1;
        let es1 = es.remove(j);
        assert forall|l: int| 0 <= l < si implies (#[trigger] m1.sets[l]).0 != set by {
            assert(m1.sets[l] == m.sets[l]);
        }
        lemma_key_idx_is(m1.sets, set, si);
        assert(m1.sets[si].1 == es1);
        assert forall|l: int| 0 <= l < es1.len() implies (#[trigger] es1[l]).0 != member by {
            let l0 = if l < j {
                l
            } else {
                l + 1
            };
            assert(es1[l] == es[l0]);
            if l0 < j {
                assert(es[l0].0 != es[j].0);
            } else {
                assert(es[j].0 != es[l0].0);
            }
        }
        lemma_key_idx_is(es1, member, es1.len() as int);
    }
}

/// Advancing a member's score never adds or removes members: the set keeps
/// its size and exactly its member strings.
pub proof fn lemma_advance_preserves_members(m: StoreModel, name: Seq<u8>, member: Seq<u8>, sc: u64)
    ensures
        model_set(spec_advance(m, name, member, sc).1, name).len() == model_set(m, name).len(),
        forall|x: Seq<u8>|
            set_has(model_set(spec_advance(m, name, member, sc).1, name), x) <==> #[trigger]
            set_has(model_set(m, name), x),
{
    let a = spec_advance(m, name, member, sc);
    if a.0 {
        let si = key_idx(m.sets, name, 0);
        lemma_key_idx(m.sets, name, 0);
        let es = m.sets[si].1;
        let j = key_idx(es, member, 0);
        lemma_key_idx(es, member, 0);
        let removed = es.remove(j);
        let pos = ins_pos(removed, sc, 0);
        lemma_ins_pos(removed, sc, 0);
        let es2 = removed.insert(pos, (member, sc));
        assert forall|l: int| 0 <= l < si implies (#[trigger] a.1.sets[l]).0 != name by {
            assert(a.1.sets[l] == m.sets[l]);
        }
        lemma_key_idx_is(a.1.sets, name, si);
        assert(model_set(a.1, name) == es2);
        assert(model_set(m, name) == es);
        assert(es2.len() == es.len());
        assert forall|x: Seq<u8>| set_has(es2, x) <==> #[trigger] set_has(es, x) by {
            if set_has(es2, x) {
                let l = choose|l: int| 0 <= l < es2.len() && (#[trigger] es2[l]).0 == x;
                if l == pos {
                    assert(es[j].0 == x);
                    assert(set_has(es, x));
                } else {
                    let lr = if l < pos {
                        l
                    } else {
                        l - 1
                    };
                    assert(es2[l] == removed[lr]);
                    let l0 = if lr < j {
                        lr
                    } else {
                        lr + 1
                    };
                    assert(removed[lr] == es[l0]);
                    assert(set_has(es, x));
                }
            }
            if set_has(es, x) {
                let l = choose|l: int| 0 <= l < es.len() && (#[trigger] es[l]).0 == x;
                if l == j {
                    assert(es2[pos].0 == x);
                    assert(set_has(es2, x));
                } else {
                    let lr = if l < j {
                        l
                    } else {
                        l - 1
                    };
                    assert(removed[lr] == es[l]);
                    let l2 = if lr < pos {
                        lr
                    } else {
                        lr + 1
                    };
                    assert(es2[l2] == removed[lr]);
                    assert(set_has(es2, x));
                }
            }
        }
    }
}


/// Association lists with the same keys in the same order agree on `key_idx`.
proof fn lemma_key_idx_same_keys<T, U>(a: Seq<(Seq<u8>, T)>, b: Seq<(Seq<u8>, U)>, k: Seq<u8>, i: int)
    requires
        a.len() == b.len(),
        forall|l: int| 0 <= l < a.len() ==> (#[trigger] a[l]).0 == (#[trigger] b[l]).0,
        0 <= i <= a.len(),
    ensures
        key_idx(a, k, i) == key_idx(b, k, i),
    decreases a.len() - i,
{
    if i < a.len() && a[i].0 != k {
        lemma_key_idx_same_keys(a, b, k, i + 1);
    }
}

/// A claim never touches any other set, nor the queues.
pub proof fn lemma_claim_frame(m: StoreModel, name: Seq<u8>, member: Seq<u8>, other: Seq<u8>)
    requires
        other != name,
    ensures
        model_set(spec_claim(m, name, member).1, other) == model_set(m, other),
        spec_claim(m, name, member).1.queues == m.queues,
{
    let c = spec_claim(m, name, member);
    if c.0 {
        let si = key_idx(m.sets, name, 0);
        lemma_key_idx(m.sets, name, 0);
        assert forall|l: int| 0 <= l < m.sets.len() implies (#[trigger] c.1.sets[l]).0
            == (#[trigger] m.sets[l]).0 by {
            if l != si {
                assert(c.1.sets[l] == m.sets[l]);
            }
        }
        lemma_key_idx_same_keys(c.1.sets, m.sets, other, 0);
        let oi = key_idx(m.sets, other, 0);
        lemma_key_idx(m.sets, other, 0);
        if oi < m.sets.len() {
            assert(oi != si) by {
                if oi == si {
                    assert(m.sets[si].0 == name);
                }
            }
            assert(c.1.sets[oi] == m.sets[oi]);
        }
    }
}

/// A push never touches the sets.
pub proof fn lemma_push_frame(m: StoreModel, name: Seq<u8>, payload: Seq<u8>)
    ensures
        spec_push(m, name, payload).sets == m.sets,
{
}

/// Equal set lists give equal named sets.
pub proof fn lemma_model_set_congruent(a: StoreModel, b: StoreModel, name: Seq<u8>)
    requires
        a.sets == b.sets,
    ensures
        model_set(a, name) == model_set(b, name),
{
}

/// A claim keeps the store invariant.
pub proof fn lemma_claim_wf(m: StoreModel, name: Seq<u8>, member: Seq<u8>)
    requires
        model_wf(m),
    ensures
        model_wf(spec_claim(m, name, member).1),
{
    let c = spec_claim(m, name, member);
    if c.0 {
        let si = key_idx(m.sets, name, 0);
        lemma_key_idx(m.sets, name, 0);
        let es = m.sets[si].1;
        let j = key_idx(es, member, 0);
        lemma_key_idx(es, member, 0);
        lemma_entries_wf_remove(es, j);
        assert forall|i: int, l: int|
            0 <= i < l < c.1.sets.len() implies (#[trigger] c.1.sets[i]).0
            != (#[trigger] c.1.sets[l]).0 by {
            if i != si {
                assert(c.1.sets[i] == m.sets[i]);
            }
            if l != si {
                assert(c.1.sets[l] == m.sets[l]);
            }
            if i == si {
                assert(c.1.sets[i].0 == m.sets[si].0);
            }
            if l == si {
                assert(c.1.sets[l].0 == m.sets[si].0);
            }
        }
        assert forall|i: int| 0 <= i < c.1.sets.len() implies entries_wf(
            (#[trigger] c.1.sets[i]).1,
        ) by {
            if i != si {
                assert(c.1.sets[i] == m.sets[i]);
            }
        }
    }
}

/// A push keeps the store invariant.
pub proof fn lemma_push_wf(m: StoreModel, name: Seq<u8>, payload: Seq<u8>)
    requires
        model_wf(m),
    ensures
        model_wf(spec_push(m, name, payload)),
{
    let r = spec_push(m, name, payload);
    let qi = key_idx(m.queues, name, 0);
    lemma_key_idx(m.queues, name, 0);
    assert forall|i: int, l: int|
        0 <= i < l < r.queues.len() implies (#[trigger] r.queues[i]).0
        != (#[trigger] r.queues[l]).0 by {
        if qi < m.queues.len() {
            if i != qi {
                assert(r.queues[i] == m.queues[i]);
            }
            if l != qi {
                assert(r.queues[l] == m.queues[l]);
            }
            if i == qi {
                assert(r.queues[i].0 == m.queues[qi].0);
            }
            if l == qi {
                assert(r.queues[l].0 == m.queues[qi].0);
            }
        } else {
            if l < m.queues.len() {
                assert(r.queues[i] == m.queues[i]);
                assert(r.queues[l] == m.queues[l]);
            } else {
                assert(r.queues[l].0 == name);
                assert(r.queues[i] == m.queues[i]);
            }
        }
    }
}


/// An advance keeps the store invariant.
pub proof fn lemma_advance_wf(m: StoreModel, name: Seq<u8>, member: Seq<u8>, sc: u64)
    requires
        model_wf(m),
    ensures
        model_wf(spec_advance(m, name, member, sc).1),
{
    let a = spec_advance(m, name, member, sc);
    if a.0 {
        let si = key_idx(m.sets, name, 0);
        lemma_key_idx(m.sets, name, 0);
        let es = m.sets[si].1;
        let j = key_idx(es, member, 0);
        lemma_key_idx(es, member, 0);
        let removed = es.remove(j);
        lemma_entries_wf_remove(es, j);
        assert forall|l: int| 0 <= l < removed.len() implies (#[trigger] removed[l]).0
            != member by {
            let l0 = if l < j {
                l
            } else {
                l + 1
            };
            assert(removed[l] == es[l0]);
            if l0 < j {
                assert(es[l0].0 != es[j].0);
            } else {
                assert(es[j].0 != es[l0].0);
            }
        }
        lemma_entries_wf_insert(removed, member, sc);
        assert forall|i: int, l: int|
            0 <= i < l < a.1.sets.len() implies (#[trigger] a.1.sets[i]).0
            != (#[trigger] a.1.sets[l]).0 by {
            if i != si {
                assert(a.1.sets[i] == m.sets[i]);
            }
            if l != si {
                assert(a.1.sets[l] == m.sets[l]);
            }
            if i == si {
                assert(a.1.sets[i].0 == m.sets[si].0);
            }
            if l == si {
                assert(a.1.sets[l].0 == m.sets[si].0);
            }
        }
        assert forall|i: int| 0 <= i < a.1.sets.len() implies entries_wf(
            (#[trigger] a.1.sets[i]).1,
        ) by {
            if i != si {
                assert(a.1.sets[i] == m.sets[i]);
            }
        }
    }
}

/// An advance never touches any other set, nor the queues.
pub proof fn lemma_advance_frame(m: StoreModel, name: Seq<u8>, member: Seq<u8>, sc: u64, other: Seq<u8>)
    requires
        other != name,
    ensures
        model_set(spec_advance(m, name, member, sc).1, other) == model_set(m, other),
        spec_advance(m, name, member, sc).1.queues == m.queues,
{
    let a = spec_advance(m, name, member, sc);
    if a.0 {
        let si = key_idx(m.sets, name, 0);
        lemma_key_idx(m.sets, name, 0);
        assert forall|l: int| 0 <= l < m.sets.len() implies (#[trigger] a.1.sets[l]).0
            == (#[trigger] m.sets[l]).0 by {
            if l != si {
                assert(a.1.sets[l] == m.sets[l]);
            }
        }
        lemma_key_idx_same_keys(a.1.sets, m.sets, other, 0);
        let oi = key_idx(m.sets, other, 0);
        lemma_key_idx(m.sets, other, 0);
        if oi < m.sets.len() {
            assert(oi != si) by {
                if oi == si {
                    assert(m.sets[si].0 == name);
                }
            }
            assert(a.1.sets[oi] == m.sets[oi]);
        }
    }
}

} // verus!
