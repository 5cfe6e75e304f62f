//! The two dispatchers: the scheduled dispatcher drains due entries from
//! time-ordered sets into immediate queues, and the periodic scheduler
//! advances due cron definitions and dispatches one occurrence each.
//!
//! Both are written against the claim store model, so their contracts state
//! the exact store after a tick.  Claiming before dispatch (and advancing
//! before dispatch) is what bounds concurrent duplication: only the winner of
//! the atomic step dispatches.

use vstd::prelude::*;

use crate::codec::DefS;
use crate::codec::EnvS;
use crate::codec::JobEnvelope;
use crate::codec::PeriodicJobDefinition;
use crate::codec::decode;
use crate::codec::decode_definition;
use crate::codec::encode;
use crate::codec::spec_dec_env;
use crate::codec::spec_dec_def;
use crate::codec::spec_enc_env;
use crate::cron::CronExpr;
use crate::cron::HORIZON_SECONDS;
use crate::cron::MAX_TIMESTAMP;
use crate::cron::cron_matches;
use crate::cron::next_after;
use crate::cron::parse;
use crate::cron::spec_parse_cron;
use crate::store::StoreModel;
use crate::store::TimeOrderedStore;
use crate::store::model_set;
use crate::store::model_wf;
use crate::store::set_has;
use crate::store::lemma_advance_preserves_members;
use crate::store::lemma_advance_wf;
use crate::store::lemma_ins_pos;
use crate::store::ins_pos;
use crate::store::lemma_claim_frame;
use crate::store::lemma_claim_wf;
use crate::store::lemma_push_frame;
use crate::store::lemma_push_wf;
use crate::store::lemma_model_set_congruent;
use crate::store::lemma_key_idx;
use crate::store::lemma_key_idx_is;
use crate::store::lemma_due_end;
use crate::store::lemma_due_end_is;
use crate::store::key_idx;
use crate::store::due_end;
use crate::store::spec_advance;
use crate::store::spec_claim;
use crate::store::spec_peek;
use crate::store::spec_push;
use crate::wire::digits_of;
use crate::wire::push_all;
use crate::wire::push_digits;

verus! {

/// Retry limit given to envelopes built from periodic definitions.
pub const DEFAULT_MAX_RETRIES: u64 = 25;

/// The name of the single set that holds periodic definitions: `periodic`.
pub open spec fn periodic_set_name() -> Seq<u8> {
    seq![112u8, 101u8, 114u8, 105u8, 111u8, 100u8, 105u8, 99u8]
}

/// The name of the periodic set as bytes.
pub fn periodic_set_bytes() -> (r: Vec<u8>)
    ensures
        r@ == periodic_set_name(),
{
    let mut out: Vec<u8> = Vec::new();
    out.push(112);
    out.push(101);
    out.push(114);
    out.push(105);
    out.push(111);
    out.push(100);
    out.push(105);
    out.push(99);
    assert(out@ =~= periodic_set_name());
    out
}

/// The models of the names in `v`.
pub open spec fn names_view(v: Vec<Vec<u8>>) -> Seq<Seq<u8>> {
    v@.map_values(|b: Vec<u8>| b@)
}

/// One dispatcher step for one member: claim it, decode it, and push it to
/// its envelope's queue; a lost claim or a malformed member dispatches
/// nothing (the malformed member is still consumed by the claim).
pub open spec fn spec_dispatch_member(m: StoreModel, set: Seq<u8>, member: Seq<u8>) -> (
    nat,
    StoreModel,
) {
    let c = spec_claim(m, set, member);
    if !c.0 {
        (0, c.1)
    } else {
        match spec_dec_env(member) {
            Some(env) => (1, spec_push(c.1, env.queue, member)),
            None => (0, c.1),
        }
    }
}

/// Dispatcher steps for the members `members[i..]`, in order.
pub open spec fn spec_dispatch_members(
    m: StoreModel,
    set: Seq<u8>,
    members: Seq<Seq<u8>>,
    i: int,
) -> (nat, StoreModel)
    decreases members.len() - i,
{
    if i < 0 || i >= members.len() {
        (0, m)
    } else {
        let st = spec_dispatch_member(m, set, members[i]);
        let rest = spec_dispatch_members(st.1, set, members, i + 1);
        ((st.0 + rest.0) as nat, rest.1)
    }
}

/// One dispatcher tick over one set: peek up to 100 due members, then
/// process each in ascending due-time order.
pub open spec fn spec_dispatch_set(m: StoreModel, set: Seq<u8>, now: u64) -> (nat, StoreModel) {
    let members = spec_peek(m, set, now, 0, 100);
    spec_dispatch_members(m, set, members, 0)
}

/// One dispatcher tick over the named sets `names[i..]`, in the given order.
pub open spec fn spec_run_dispatch(m: StoreModel, now: u64, names: Seq<Seq<u8>>, i: int) -> (
    nat,
    StoreModel,
)
    decreases names.len() - i,
{
    if i < 0 || i >= names.len() {
        (0, m)
    } else {
        let st = spec_dispatch_set(m, names[i], now);
        let rest = spec_run_dispatch(st.1, now, names, i + 1);
        ((st.0 + rest.0) as nat, rest.1)
    }
}

/// Processed members never dispatch more than one occurrence each.
pub proof fn lemma_dispatch_members_count(m: StoreModel, set: Seq<u8>, members: Seq<Seq<u8>>, i: int)
    requires
        0 <= i <= members.len(),
    ensures
        spec_dispatch_members(m, set, members, i).0 <= members.len() - i,
    decreases members.len() - i,
{
    if i < members.len() {
        let st = spec_dispatch_member(m, set, members[i]);
        lemma_dispatch_members_count(st.1, set, members, i + 1);
    }
}

/// One dispatcher tick, executable: for each named set in order, claim the
/// due entries and push each decodable one to its envelope's queue.
/// Returns the number of dispatched envelopes.  The bound on the number of
/// set names only keeps that count inside a `usize`.
pub fn run_once(store: &mut TimeOrderedStore, now: u64, set_names: &Vec<Vec<u8>>) -> (count: usize)
    requires
        model_wf(old(store)@),
        set_names@.len() <= 1000000,
    ensures
        count == spec_run_dispatch(old(store)@, now, names_view(*set_names), 0).0,
        final(store)@ == spec_run_dispatch(old(store)@, now, names_view(*set_names), 0).1,
        model_wf(final(store)@),
{
    let ghost nv = names_view(*set_names);
    let ghost m_init = store@;
    let mut count: usize = 0;
    let mut i: usize = 0;
    while i < set_names.len()
        invariant
            model_wf(store@),
            0 <= i <= set_names@.len(),
            set_names@.len() <= 1000000,
            nv == names_view(*set_names),
            nv.len() == set_names@.len(),
            count <= 100 * i,
            spec_run_dispatch(m_init, now, nv, 0).0 == count + spec_run_dispatch(
                store@,
                now,
                nv,
                i as int,
            ).0,
            spec_run_dispatch(m_init, now, nv, 0).1 == spec_run_dispatch(
                store@,
                now,
                nv,
                i as int,
            ).1,
        decreases set_names@.len() - i,
    {
        let ghost m_pre = store@;
        assert(nv[i as int] == set_names@[i as int]@);
        let c = dispatch_set(store, now, &set_names[i]);
        proof {
            let st = spec_dispatch_set(m_pre, nv[i as int], now);
            let rest = spec_run_dispatch(st.1, now, nv, i + 1);
            assert(spec_run_dispatch(m_pre, now, nv, i as int).0 == st.0 + rest.0);
            assert(spec_run_dispatch(m_pre, now, nv, i as int).1 == rest.1);
        }
        count = count + c;
        i = i + 1;
    }
    assert(spec_run_dispatch(store@, now, nv, i as int).0 == 0);
    count
}

/// One dispatcher tick over a single set, with the cap of 100 entries.
fn dispatch_set(store: &mut TimeOrderedStore, now: u64, set_name: &Vec<u8>) -> (count: usize)
    requires
        model_wf(old(store)@),
    ensures
        count == spec_dispatch_set(old(store)@, set_name@, now).0,
        final(store)@ == spec_dispatch_set(old(store)@, set_name@, now).1,
        model_wf(final(store)@),
        count <= 100,
{
    let ghost m0 = store@;
    let members = store.peek_due(set_name, now, 0, 100);
    let ghost mv = members@.map_values(|b: Vec<u8>| b@);
    assert(mv == spec_peek(m0, set_name@, now, 0, 100));
    let mut count: usize = 0;
    let mut idx: usize = 0;
    while idx < members.len()
        invariant
            model_wf(store@),
            0 <= idx <= members@.len(),
            members@.len() <= 100,
            count <= idx,
            mv == members@.map_values(|b: Vec<u8>| b@),
            mv.len() == members@.len(),
            spec_dispatch_members(m0, set_name@, mv, 0).0 == count + spec_dispatch_members(
                store@,
                set_name@,
                mv,
                idx as int,
            ).0,
            spec_dispatch_members(m0, set_name@, mv, 0).1 == spec_dispatch_members(
                store@,
                set_name@,
                mv,
                idx as int,
            ).1,
        decreases members@.len() - idx,
    {
        let ghost m_pre = store@;
        assert(mv[idx as int] == members@[idx as int]@);
        let member = &members[idx];
        let got = store.claim(set_name, member);
        let mut dispatched: usize = 0;
        if got {
            match decode(member) {
                Ok(env) => {
                    store.push_immediate(&env.queue, member);
                    dispatched = 1;
                },
                Err(_) => {},
            }
        }
        proof {
            let st = spec_dispatch_member(m_pre, set_name@, mv[idx as int]);
            assert(st.0 == dispatched && st.1 == store@);
            let rest = spec_dispatch_members(st.1, set_name@, mv, idx + 1);
            assert(spec_dispatch_members(m_pre, set_name@, mv, idx as int).0 == st.0 + rest.0);
            assert(spec_dispatch_members(m_pre, set_name@, mv, idx as int).1 == rest.1);
        }
        count = count + dispatched;
        idx = idx + 1;
    }
    assert(spec_dispatch_members(store@, set_name@, mv, idx as int).0 == 0);
    count
}


/// `t` is the first timestamp after `from`, within the horizon, matching `c`.
pub open spec fn next_ok(c: CronExpr, from: u64, t: u64) -> bool {
    &&& from < t <= from + HORIZON_SECONDS
    &&& cron_matches(c, t)
    &&& forall|u: u64| from < u < t ==> !cron_matches(c, u)
}

/// The first matching timestamp after `from` within the horizon, if any.
pub open spec fn spec_next_after(c: CronExpr, from: u64) -> Option<u64> {
    if exists|t: u64| next_ok(c, from, t) {
        Some(choose|t: u64| next_ok(c, from, t))
    } else {
        None
    }
}

/// Any witness of `next_ok` is the unique one `spec_next_after` returns.
pub proof fn lemma_next_after_pins(c: CronExpr, from: u64, t: u64)
    requires
        next_ok(c, from, t),
    ensures
        spec_next_after(c, from) == Some(t),
{
    let t2 = choose|t2: u64| next_ok(c, from, t2);
    assert(next_ok(c, from, t2));
    if t2 < t {
        assert(!cron_matches(c, t2));
    }
    if t < t2 {
        assert(!cron_matches(c, t));
    }
}

/// With no match in the horizon there is no next timestamp.
pub proof fn lemma_next_after_none(c: CronExpr, from: u64)
    requires
        forall|u: u64| from < u <= from + HORIZON_SECONDS ==> !cron_matches(c, u),
    ensures
        spec_next_after(c, from) is None,
{
    if exists|t: u64| next_ok(c, from, t) {
        let t = choose|t: u64| next_ok(c, from, t);
        assert(!cron_matches(c, t));
    }
}

/// The fresh envelope built from a due periodic definition: its id is the
/// tick timestamp, a dash, and the definition name; its retry count is zero.
pub open spec fn spec_def_job(d: DefS, now: u64) -> EnvS {
    EnvS {
        id: digits_of(now as nat) + seq![45u8] + d.name,
        class: d.class,
        queue: d.queue,
        args: d.args,
        created: now,
        retry: 0,
        max_retries: DEFAULT_MAX_RETRIES,
    }
}

/// Builds the envelope for one occurrence of a periodic definition.
pub fn definition_into_job(def: PeriodicJobDefinition, now: u64) -> (r: JobEnvelope)
    ensures
        r@ == spec_def_job(def@, now),
{
    let mut id: Vec<u8> = Vec::new();
    push_digits(&mut id, now);
    id.push(45);
    push_all(&mut id, &def.name);
    assert(id@ =~= digits_of(now as nat) + seq![45u8] + def.name@);
    let env = JobEnvelope {
        id,
        class: def.class,
        queue: def.queue,
        args: def.args,
        created: now,
        retry: 0,
        max_retries: DEFAULT_MAX_RETRIES,
    };
    assert(env@ =~= spec_def_job(def@, now));
    env
}

/// One scheduler step for one due definition member: decode it, compute the
/// next occurrence, advance its score, and only on a won advance build and
/// push a fresh envelope.  Corrupt members (bad encoding, bad expression, no
/// occurrence in the horizon) are skipped and left unchanged.
pub open spec fn spec_periodic_member(m: StoreModel, now: u64, member: Seq<u8>) -> (
    nat,
    StoreModel,
) {
    match spec_dec_def(member) {
        Some(def) => match spec_parse_cron(def.cron) {
            Some(c) => match spec_next_after(c, now) {
                Some(nxt) => {
                    let a = spec_advance(m, periodic_set_name(), member, nxt);
                    if a.0 {
                        (1, spec_push(a.1, def.queue, spec_enc_env(spec_def_job(def, now))))
                    } else {
                        (0, a.1)
                    }
                },
                None => (0, m),
            },
            None => (0, m),
        },
        None => (0, m),
    }
}

/// Scheduler steps for the members `members[i..]`, in order.
pub open spec fn spec_periodic_members(
    m: StoreModel,
    now: u64,
    members: Seq<Seq<u8>>,
    i: int,
) -> (nat, StoreModel)
    decreases members.len() - i,
{
    if i < 0 || i >= members.len() {
        (0, m)
    } else {
        let st = spec_periodic_member(m, now, members[i]);
        let rest = spec_periodic_members(st.1, now, members, i + 1);
        ((st.0 + rest.0) as nat, rest.1)
    }
}

/// One scheduler tick: peek up to 100 due definitions and process each.
pub open spec fn spec_run_periodic(m: StoreModel, now: u64) -> (nat, StoreModel) {
    let members = spec_peek(m, periodic_set_name(), now, 0, 100);
    spec_periodic_members(m, now, members, 0)
}

/// One periodic scheduler tick, executable.  Returns how many occurrences
/// were dispatched; every dispatch was preceded by a won `advance`.
pub fn run_once_periodic(store: &mut TimeOrderedStore, now: u64) -> (count: usize)
    requires
        model_wf(old(store)@),
        now <= MAX_TIMESTAMP,
    ensures
        count == spec_run_periodic(old(store)@, now).0,
        final(store)@ == spec_run_periodic(old(store)@, now).1,
        model_wf(final(store)@),
{
    let pname = periodic_set_bytes();
    let ghost m0 = store@;
    let members = store.peek_due(&pname, now, 0, 100);
    let ghost mv = members@.map_values(|b: Vec<u8>| b@);
    assert(mv == spec_peek(m0, periodic_set_name(), now, 0, 100));
    let mut count: usize = 0;
    let mut idx: usize = 0;
    while idx < members.len()
        invariant
            model_wf(store@),
            now <= MAX_TIMESTAMP,
            pname@ == periodic_set_name(),
            0 <= idx <= members@.len(),
            members@.len() <= 100,
            count <= idx,
            mv == members@.map_values(|b: Vec<u8>| b@),
            mv.len() == members@.len(),
            spec_periodic_members(m0, now, mv, 0).0 == count + spec_periodic_members(
                store@,
                now,
                mv,
                idx as int,
            ).0,
            spec_periodic_members(m0, now, mv, 0).1 == spec_periodic_members(
                store@,
                now,
                mv,
                idx as int,
            ).1,
        decreases members@.len() - idx,
    {
        let ghost m_pre = store@;
        assert(mv[idx as int] == members@[idx as int]@);
        let member = &members[idx];
        let mut dispatched: usize = 0;
        match decode_definition(member) {
            Ok(def) => {
                match parse(&def.cron) {
                    Ok(c) => {
                        match next_after(&c, now) {
                            Ok(nxt) => {
                                proof {
                                    lemma_next_after_pins(c, now, nxt);
                                }
                                let adv = store.advance(&pname, member, nxt);
                                if adv {
                                    let env = definition_into_job(def, now);
                                    let enc = encode(&env);
                                    store.push_immediate(&env.queue, &enc);
                                    dispatched = 1;
                                }
                            },
                            Err(_) => {
                                proof {
                                    lemma_next_after_none(c, now);
                                }
                            },
                        }
                    },
                    Err(_) => {},
                }
            },
            Err(_) => {},
        }
        proof {
            let st = spec_periodic_member(m_pre, now, mv[idx as int]);
            assert(st.0 == dispatched && st.1 == store@);
            let rest = spec_periodic_members(st.1, now, mv, idx + 1);
            assert(spec_periodic_members(m_pre, now, mv, idx as int).0 == st.0 + rest.0);
            assert(spec_periodic_members(m_pre, now, mv, idx as int).1 == rest.1);
        }
        count = count + dispatched;
        idx = idx + 1;
    }
    assert(spec_periodic_members(store@, now, mv, idx as int).0 == 0);
    count
}


/// Each scheduler step keeps the periodic set's members.
proof fn lemma_periodic_member_preserves(m: StoreModel, now: u64, member: Seq<u8>)
    ensures
        model_set(spec_periodic_member(m, now, member).1, periodic_set_name()).len() == model_set(
            m,
            periodic_set_name(),
        ).len(),
        forall|x: Seq<u8>|
            set_has(model_set(spec_periodic_member(m, now, member).1, periodic_set_name()), x)
                <==> #[trigger] set_has(model_set(m, periodic_set_name()), x),
{
    let pname = periodic_set_name();
    match spec_dec_def(member) {
        Some(def) => match spec_parse_cron(def.cron) {
            Some(c) => match spec_next_after(c, now) {
                Some(nxt) => {
                    let a = spec_advance(m, pname, member, nxt);
                    lemma_advance_preserves_members(m, pname, member, nxt);
                    if a.0 {
                        let pushed = spec_push(a.1, def.queue, spec_enc_env(spec_def_job(def, now)));
                        assert(pushed.sets == a.1.sets);
                        assert(model_set(pushed, pname) == model_set(a.1, pname));
                    }
                },
                None => {},
            },
            None => {},
        },
        None => {},
    }
}

proof fn lemma_periodic_members_preserve(m: StoreModel, now: u64, members: Seq<Seq<u8>>, i: int)
    requires
        0 <= i <= members.len(),
    ensures
        model_set(spec_periodic_members(m, now, members, i).1, periodic_set_name()).len()
            == model_set(m, periodic_set_name()).len(),
        forall|x: Seq<u8>|
            set_has(
                model_set(spec_periodic_members(m, now, members, i).1, periodic_set_name()),
                x,
            ) <==> #[trigger] set_has(model_set(m, periodic_set_name()), x),
    decreases members.len() - i,
{
    if i < members.len() {
        let st = spec_periodic_member(m, now, members[i]);
        lemma_periodic_member_preserves(m, now, members[i]);
        lemma_periodic_members_preserve(st.1, now, members, i + 1);
    }
}

/// Periodic definitions are never removed by a scheduler tick: the periodic
/// set keeps its member count, and exactly its member strings; only their
/// scores advance.
pub proof fn lemma_periodic_definitions_kept(m: StoreModel, now: u64)
    ensures
        model_set(spec_run_periodic(m, now).1, periodic_set_name()).len() == model_set(
            m,
            periodic_set_name(),
        ).len(),
        forall|x: Seq<u8>|
            set_has(model_set(spec_run_periodic(m, now).1, periodic_set_name()), x) <==> #[trigger]
            set_has(model_set(m, periodic_set_name()), x),
{
    let members = spec_peek(m, periodic_set_name(), now, 0, 100);
    lemma_periodic_members_preserve(m, now, members, 0);
}


/// Claiming the due members of a set in order leaves exactly its not-yet-due
/// suffix, and touches no other set.
proof fn lemma_dispatch_members_drain(m: StoreModel, s: Seq<u8>, members: Seq<Seq<u8>>, i: int)
    requires
        model_wf(m),
        0 <= i <= members.len(),
        members.len() - i <= model_set(m, s).len(),
        forall|l: int|
            0 <= l < members.len() - i ==> members[i + l] == (#[trigger] model_set(m, s)[l]).0,
    ensures
        model_wf(spec_dispatch_members(m, s, members, i).1),
        model_set(spec_dispatch_members(m, s, members, i).1, s) == model_set(m, s).subrange(
            members.len() - i,
            model_set(m, s).len() as int,
        ),
        forall|o: Seq<u8>|
            o != s ==> #[trigger] model_set(spec_dispatch_members(m, s, members, i).1, o)
                == model_set(m, o),
        spec_dispatch_members(m, s, members, i).0 == count_decodable(members, i),
    decreases members.len() - i,
{
    let cur = model_set(m, s);
    let r = spec_dispatch_members(m, s, members, i);
    if i == members.len() {
        assert(cur.subrange(0, cur.len() as int) =~= cur);
    } else {
        let member = members[i];
        assert(member == cur[0].0);
        let si = key_idx(m.sets, s, 0);
        lemma_key_idx(m.sets, s, 0);
        assert(si < m.sets.len());
        let es = m.sets[si].1;
        assert(es == cur);
        lemma_key_idx_is(es, member, 0);
        let c = spec_claim(m, s, member);
        assert(c.0);
        assert(c.1.sets[si] == (s, es.remove(0)));
        assert forall|l: int| 0 <= l < si implies (#[trigger] c.1.sets[l]).0 != s by {
            assert(c.1.sets[l] == m.sets[l]);
        }
        lemma_key_idx_is(c.1.sets, s, si);
        assert(model_set(c.1, s) == es.remove(0));
        assert(es.remove(0) =~= es.subrange(1, es.len() as int));
        lemma_claim_wf(m, s, member);
        let st = spec_dispatch_member(m, s, member);
        assert(st.1.sets == c.1.sets) by {
            match spec_dec_env(member) {
                Some(env) => {
                    lemma_push_frame(c.1, env.queue, member);
                },
                None => {},
            }
        }
        assert(model_set(st.1, s) == model_set(c.1, s)) by {
            lemma_model_set_congruent(st.1, c.1, s);
        }
        assert(model_wf(st.1)) by {
            match spec_dec_env(member) {
                Some(env) => {
                    lemma_push_wf(c.1, env.queue, member);
                },
                None => {},
            }
        }
        let cur1 = model_set(st.1, s);
        assert(cur1 == es.subrange(1, es.len() as int));
        assert forall|l: int|
            0 <= l < members.len() - (i + 1) implies members[i + 1 + l] == (#[trigger] model_set(
            st.1,
            s,
        )[l]).0 by {
            assert(cur1[l] == cur[l + 1]);
            assert(members[i + (l + 1)] == cur[l + 1].0);
        }
        lemma_dispatch_members_drain(st.1, s, members, i + 1);
        assert(model_set(r.1, s) =~= cur.subrange(members.len() - i, cur.len() as int)) by {
            assert(model_set(r.1, s) == cur1.subrange(
                members.len() - (i + 1),
                cur1.len() as int,
            ));
        }
        assert forall|o: Seq<u8>| o != s implies #[trigger] model_set(r.1, o) == model_set(
            m,
            o,
        ) by {
            lemma_claim_frame(m, s, member, o);
            lemma_model_set_congruent(st.1, c.1, o);
        }
    }
}

/// One dispatcher pass over a set with at most 100 due entries leaves it with
/// no due entry at all, and leaves every other set alone.
proof fn lemma_dispatch_set_drains(m: StoreModel, s: Seq<u8>, now: u64)
    requires
        model_wf(m),
        due_end(model_set(m, s), now, 0) <= 100,
    ensures
        model_wf(spec_dispatch_set(m, s, now).1),
        due_end(model_set(spec_dispatch_set(m, s, now).1, s), now, 0) == 0,
        forall|o: Seq<u8>|
            o != s ==> #[trigger] model_set(spec_dispatch_set(m, s, now).1, o) == model_set(m, o),
{
    let es = model_set(m, s);
    let k = due_end(es, now, 0);
    lemma_due_end(es, now, 0);
    let mv = spec_peek(m, s, now, 0, 100);
    assert(mv =~= es.subrange(0, k).map_values(|e: (Seq<u8>, u64)| e.0));
    assert(mv.len() == k);
    assert forall|l: int| 0 <= l < mv.len() - 0 implies mv[0 + l] == (#[trigger] model_set(
        m,
        s,
    )[l]).0 by {
        assert(mv[l] == es.subrange(0, k)[l].0);
    }
    lemma_dispatch_members_drain(m, s, mv, 0);
    let r = spec_dispatch_set(m, s, now);
    let left = model_set(r.1, s);
    assert(left == es.subrange(k, es.len() as int));
    if left.len() > 0 {
        assert(left[0] == es[k]);
        lemma_due_end_is(left, now, 0);
    }
}

/// With no due entry in any named set, a dispatcher tick does nothing.
proof fn lemma_run_dispatch_zero(m: StoreModel, now: u64, names: Seq<Seq<u8>>, i: int)
    requires
        0 <= i <= names.len(),
        forall|l: int|
            i <= l < names.len() ==> due_end(model_set(m, #[trigger] names[l]), now, 0) == 0,
    ensures
        spec_run_dispatch(m, now, names, i).0 == 0,
        spec_run_dispatch(m, now, names, i).1 == m,
    decreases names.len() - i,
{
    if i < names.len() {
        let s = names[i];
        let mv = spec_peek(m, s, now, 0, 100);
        assert(mv =~= Seq::<Seq<u8>>::empty());
        assert(spec_dispatch_set(m, s, now) == (0nat, m));
        lemma_run_dispatch_zero(m, now, names, i + 1);
    }
}

proof fn lemma_run_dispatch_drains(m: StoreModel, now: u64, names: Seq<Seq<u8>>, i: int)
    requires
        model_wf(m),
        0 <= i <= names.len(),
        forall|a: int, b: int| 0 <= a < b < names.len() ==> names[a] != names[b],
        forall|l: int|
            i <= l < names.len() ==> due_end(model_set(m, #[trigger] names[l]), now, 0) <= 100,
    ensures
        model_wf(spec_run_dispatch(m, now, names, i).1),
        forall|l: int|
            i <= l < names.len() ==> due_end(
                model_set(spec_run_dispatch(m, now, names, i).1, #[trigger] names[l]),
                now,
                0,
            ) == 0,
    decreases names.len() - i,
{
    if i < names.len() {
        let s = names[i];
        lemma_dispatch_set_drains(m, s, now);
        let st = spec_dispatch_set(m, s, now);
        assert forall|l: int|
            i + 1 <= l < names.len() implies due_end(
            model_set(st.1, #[trigger] names[l]),
            now,
            0,
        ) <= 100 by {
            assert(names[l] != s);
        }
        lemma_run_dispatch_drains(st.1, now, names, i + 1);
        let r = spec_run_dispatch(m, now, names, i);
        assert forall|l: int|
            i <= l < names.len() implies due_end(
            model_set(r.1, #[trigger] names[l]),
            now,
            0,
        ) == 0 by {
            if l == i {
                lemma_run_dispatch_frame(st.1, now, names, i + 1, s);
            }
        }
    }
}

/// A dispatcher pass over the sets `names[i..]` does not touch a set that is
/// not among them.
proof fn lemma_run_dispatch_frame(m: StoreModel, now: u64, names: Seq<Seq<u8>>, i: int, o: Seq<u8>)
    requires
        model_wf(m),
        0 <= i <= names.len(),
        forall|l: int| i <= l < names.len() ==> o != #[trigger] names[l],
    ensures
        model_set(spec_run_dispatch(m, now, names, i).1, o) == model_set(m, o),
    decreases names.len() - i,
{
    if i < names.len() {
        let s = names[i];
        let es = model_set(m, s);
        let k = due_end(es, now, 0);
        lemma_due_end(es, now, 0);
        let mv = spec_peek(m, s, now, 0, 100);
        if k <= 100 {
            assert(mv =~= es.subrange(0, k).map_values(|e: (Seq<u8>, u64)| e.0));
            assert forall|l: int| 0 <= l < mv.len() - 0 implies mv[0 + l] == (#[trigger] model_set(
                m,
                s,
            )[l]).0 by {
                assert(mv[l] == es.subrange(0, k)[l].0);
            }
        } else {
            assert(mv =~= es.subrange(0, 100).map_values(|e: (Seq<u8>, u64)| e.0));
            assert forall|l: int| 0 <= l < mv.len() - 0 implies mv[0 + l] == (#[trigger] model_set(
                m,
                s,
            )[l]).0 by {
                assert(mv[l] == es.subrange(0, 100)[l].0);
            }
        }
        lemma_dispatch_members_drain(m, s, mv, 0);
        let st = spec_dispatch_set(m, s, now);
        lemma_run_dispatch_frame(st.1, now, names, i + 1, o);
    }
}

/// At-most-once dispatch: one tick claims every entry it dispatches, so a
/// second tick over the same sets with the same `now` dispatches nothing.
/// Together with `lemma_claim_exclusive` this is the race-freedom guarantee:
/// any entry is dispatched once if due, never twice.
pub proof fn lemma_dispatch_at_most_once(m: StoreModel, now: u64, names: Seq<Seq<u8>>)
    requires
        model_wf(m),
        forall|a: int, b: int| 0 <= a < b < names.len() ==> names[a] != names[b],
        forall|l: int|
            0 <= l < names.len() ==> due_end(model_set(m, #[trigger] names[l]), now, 0) <= 100,
    ensures
        spec_run_dispatch(spec_run_dispatch(m, now, names, 0).1, now, names, 0).0 == 0,
{
    lemma_run_dispatch_drains(m, now, names, 0);
    lemma_run_dispatch_zero(spec_run_dispatch(m, now, names, 0).1, now, names, 0);
}


/// A stored member that one scheduler step can actually schedule: it decodes,
/// its expression parses, and an occurrence exists within the horizon.
pub open spec fn member_schedulable(member: Seq<u8>, now: u64) -> bool {
    match spec_dec_def(member) {
        Some(def) => match spec_parse_cron(def.cron) {
            Some(c) => spec_next_after(c, now) is Some,
            None => false,
        },
        None => false,
    }
}

/// One scheduler step on the first due definition advances it past `now`:
/// the due prefix shrinks by exactly that one member.
proof fn lemma_periodic_member_step(m: StoreModel, now: u64, member: Seq<u8>)
    requires
        model_wf(m),
        due_end(model_set(m, periodic_set_name()), now, 0) >= 1,
        member == model_set(m, periodic_set_name())[0].0,
        member_schedulable(member, now),
    ensures
        model_wf(spec_periodic_member(m, now, member).1),
        due_end(model_set(spec_periodic_member(m, now, member).1, periodic_set_name()), now, 0)
            == due_end(model_set(m, periodic_set_name()), now, 0) - 1,
        forall|l: int|
            0 <= l < due_end(model_set(m, periodic_set_name()), now, 0) - 1 ==> model_set(
                spec_periodic_member(m, now, member).1,
                periodic_set_name(),
            )[l] == model_set(m, periodic_set_name())[l + 1],
{
    let pname = periodic_set_name();
    let cur = model_set(m, pname);
    let k = due_end(cur, now, 0);
    lemma_due_end(cur, now, 0);
    let def = spec_dec_def(member)->Some_0;
    let c = spec_parse_cron(def.cron)->Some_0;
    let nxt = spec_next_after(c, now)->Some_0;
    assert(next_ok(c, now, nxt)) by {
        assert(exists|t: u64| next_ok(c, now, t));
    }
    assert(nxt > now);
    let si = key_idx(m.sets, pname, 0);
    lemma_key_idx(m.sets, pname, 0);
    assert(si < m.sets.len());
    let es = m.sets[si].1;
    assert(es == cur);
    lemma_key_idx_is(es, member, 0);
    let a = spec_advance(m, pname, member, nxt);
    assert(a.0);
    let removed = es.remove(0);
    let pos = ins_pos(removed, nxt, 0);
    lemma_ins_pos(removed, nxt, 0);
    let es2 = removed.insert(pos, (member, nxt));
    assert(a.1.sets[si] == (pname, es2));
    assert forall|l: int| 0 <= l < si implies (#[trigger] a.1.sets[l]).0 != pname by {
        assert(a.1.sets[l] == m.sets[l]);
    }
    lemma_key_idx_is(a.1.sets, pname, si);
    assert(model_set(a.1, pname) == es2);
    assert(pos >= k - 1) by {
        if pos < k - 1 {
            assert(removed[pos] == es[pos + 1]);
            assert(es[pos + 1].1 <= now);
        }
    }
    assert forall|l: int| 0 <= l < k - 1 implies (#[trigger] es2[l]).1 <= now && es2[l] == es[l
        + 1] by {
        assert(es2[l] == removed[l]);
        assert(removed[l] == es[l + 1]);
    }
    assert(es2.len() == es.len());
    assert(k - 1 < es2.len());
    assert(es2[k - 1].1 > now) by {
        if k - 1 == pos {
            assert(es2[k - 1] == (member, nxt));
        } else {
            assert(pos > k - 1);
            assert(es2[k - 1] == removed[k - 1]);
            assert(removed.len() == es.len() - 1);
            assert(k - 1 < removed.len());
            assert(removed[k - 1] == es[k]);
            assert(es[k].1 > now);
        }
    }
    lemma_due_end_is(es2, now, k - 1);
    lemma_advance_wf(m, pname, member, nxt);
    let st = spec_periodic_member(m, now, member);
    assert(st.1.sets == a.1.sets) by {
        lemma_push_frame(a.1, def.queue, spec_enc_env(spec_def_job(def, now)));
    }
    lemma_model_set_congruent(st.1, a.1, pname);
    assert(model_wf(st.1)) by {
        lemma_push_wf(a.1, def.queue, spec_enc_env(spec_def_job(def, now)));
    }
}

/// Scheduling the due members in order drains the due prefix entirely.
proof fn lemma_periodic_members_drain(m: StoreModel, now: u64, members: Seq<Seq<u8>>, i: int)
    requires
        model_wf(m),
        0 <= i <= members.len(),
        due_end(model_set(m, periodic_set_name()), now, 0) == members.len() - i,
        forall|l: int|
            0 <= l < members.len() - i ==> members[i + l] == (#[trigger] model_set(
                m,
                periodic_set_name(),
            )[l]).0,
        forall|l: int| i <= l < members.len() ==> member_schedulable(#[trigger] members[l], now),
    ensures
        model_wf(spec_periodic_members(m, now, members, i).1),
        due_end(
            model_set(spec_periodic_members(m, now, members, i).1, periodic_set_name()),
            now,
            0,
        ) == 0,
    decreases members.len() - i,
{
    let pname = periodic_set_name();
    if i < members.len() {
        let member = members[i];
        assert(member == model_set(m, pname)[0].0);
        lemma_periodic_member_step(m, now, member);
        let st = spec_periodic_member(m, now, member);
        let cur = model_set(m, pname);
        let cur1 = model_set(st.1, pname);
        assert forall|l: int|
            0 <= l < members.len() - (i + 1) implies members[i + 1 + l] == (#[trigger] model_set(
            st.1,
            pname,
        )[l]).0 by {
            assert(cur1[l] == cur[l + 1]);
            assert(members[i + (l + 1)] == cur[l + 1].0);
        }
        lemma_periodic_members_drain(st.1, now, members, i + 1);
    }
}

/// At-most-once periodic dispatch: when every due definition is intact, one
/// tick advances them all past `now`, and a second tick with the same `now`
/// dispatches nothing.
pub proof fn lemma_periodic_at_most_once(m: StoreModel, now: u64)
    requires
        model_wf(m),
        due_end(model_set(m, periodic_set_name()), now, 0) <= 100,
        forall|l: int|
            0 <= l < due_end(model_set(m, periodic_set_name()), now, 0) ==> member_schedulable(
                (#[trigger] model_set(m, periodic_set_name())[l]).0,
                now,
            ),
    ensures
        spec_run_periodic(spec_run_periodic(m, now).1, now).0 == 0,
{
    let pname = periodic_set_name();
    let es = model_set(m, pname);
    let k = due_end(es, now, 0);
    lemma_due_end(es, now, 0);
    let mv = spec_peek(m, pname, now, 0, 100);
    assert(mv =~= es.subrange(0, k).map_values(|e: (Seq<u8>, u64)| e.0));
    assert(mv.len() == k);
    assert forall|l: int| 0 <= l < mv.len() - 0 implies mv[0 + l] == (#[trigger] model_set(
        m,
        pname,
    )[l]).0 by {
        assert(mv[l] == es.subrange(0, k)[l].0);
    }
    assert forall|l: int| 0 <= l < mv.len() implies member_schedulable(
        #[trigger] mv[l],
        now,
    ) by {
        assert(mv[l] == es[l].0);
    }
    lemma_periodic_members_drain(m, now, mv, 0);
    let m1 = spec_run_periodic(m, now).1;
    let mv1 = spec_peek(m1, pname, now, 0, 100);
    assert(mv1 =~= Seq::<Seq<u8>>::empty());
    assert(spec_periodic_members(m1, now, mv1, 0).0 == 0);
}


/// How many of the members `members[i..]` decode as envelopes.
pub open spec fn count_decodable(members: Seq<Seq<u8>>, i: int) -> nat
    decreases members.len() - i,
{
    if i < 0 || i >= members.len() {
        0
    } else {
        ((if spec_dec_env(members[i]) is Some {
            1nat
        } else {
            0nat
        }) + count_decodable(members, i + 1)) as nat
    }
}

proof fn lemma_count_decodable_all(members: Seq<Seq<u8>>, i: int)
    requires
        0 <= i <= members.len(),
        forall|l: int| i <= l < members.len() ==> spec_dec_env(#[trigger] members[l]) is Some,
    ensures
        count_decodable(members, i) == members.len() - i,
    decreases members.len() - i,
{
    if i < members.len() {
        lemma_count_decodable_all(members, i + 1);
    }
}

/// Exactly-once dispatch for one tick: a dispatcher pass over a set whose due
/// entries all decode dispatches exactly one occurrence per due entry and
/// none for the rest.
pub proof fn lemma_dispatch_exact_count(m: StoreModel, s: Seq<u8>, now: u64)
    requires
        model_wf(m),
        due_end(model_set(m, s), now, 0) <= 100,
        forall|l: int|
            0 <= l < due_end(model_set(m, s), now, 0) ==> spec_dec_env(
                (#[trigger] model_set(m, s)[l]).0,
            ) is Some,
    ensures
        spec_dispatch_set(m, s, now).0 == due_end(model_set(m, s), now, 0),
{
    let es = model_set(m, s);
    let k = due_end(es, now, 0);
    lemma_due_end(es, now, 0);
    let mv = spec_peek(m, s, now, 0, 100);
    assert(mv =~= es.subrange(0, k).map_values(|e: (Seq<u8>, u64)| e.0));
    assert(mv.len() == k);
    assert forall|l: int| 0 <= l < mv.len() - 0 implies mv[0 + l] == (#[trigger] model_set(
        m,
        s,
    )[l]).0 by {
        assert(mv[l] == es.subrange(0, k)[l].0);
    }
    lemma_dispatch_members_drain(m, s, mv, 0);
    assert forall|l: int| 0 <= l < mv.len() implies spec_dec_env(#[trigger] mv[l]) is Some by {
        assert(mv[l] == es[l].0);
    }
    lemma_count_decodable_all(mv, 0);
}

} // verus!
