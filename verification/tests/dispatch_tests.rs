use dispatch_core::codec::ArgValue;
use dispatch_core::codec::JobEnvelope;
use dispatch_core::codec::PeriodicJobDefinition;
use dispatch_core::codec::encode;
use dispatch_core::codec::encode_definition;
use dispatch_core::dispatch::run_once;
use dispatch_core::dispatch::run_once_periodic;
use dispatch_core::store::TimeOrderedStore;

fn b(s: &str) -> Vec<u8> {
    s.as_bytes().to_vec()
}

fn envelope(id: &str, queue: &str) -> JobEnvelope {
    JobEnvelope {
        id: b(id),
        class: b("Worker"),
        queue: b(queue),
        args: vec![ArgValue::Int(1)],
        created: 1000,
        retry: 0,
        max_retries: 25,
    }
}

#[test]
fn peek_due_respects_limit_offset_and_scores() {
    let mut store = TimeOrderedStore::new();
    let set = b("scheduled");
    for (i, score) in [(0u64, 10u64), (1, 20), (2, 30), (3, 40), (4, 1000)] {
        store.add(&set, &b(&format!("m{i}")), score);
    }
    let now = 500;
    let peeked = store.peek_due(&set, now, 0, 3);
    assert_eq!(peeked, vec![b("m0"), b("m1"), b("m2")]);
    let rest = store.peek_due(&set, now, 3, 3);
    assert_eq!(rest, vec![b("m3")]);
    // Never more than the limit, never a score past now.
    let all = store.peek_due(&set, now, 0, 100);
    assert_eq!(all.len(), 4);
    assert!(store.peek_due(&set, 5, 0, 100).is_empty());
}

#[test]
fn claim_is_exclusive() {
    let mut store = TimeOrderedStore::new();
    let set = b("retry");
    store.add(&set, &b("member"), 7);
    assert!(store.claim(&set, &b("member")));
    assert!(!store.claim(&set, &b("member")));
    assert!(!store.claim(&set, &b("never-there")));
}

#[test]
fn advance_is_conditional_on_presence() {
    let mut store = TimeOrderedStore::new();
    let set = b("periodic");
    store.add(&set, &b("def"), 50);
    assert!(store.advance(&set, &b("def"), 90));
    assert_eq!(store.member_score(&set, &b("def")), Some(90));
    assert!(!store.advance(&set, &b("absent"), 90));
    assert_eq!(store.set_len(&set), 1);
}

#[test]
fn due_retry_entry_is_claimed_and_pushed_future_entry_remains() {
    let now = 10_000u64;
    let mut store = TimeOrderedStore::new();
    let retry = b("retry");
    let due = encode(&envelope("due-job", "target"));
    let future = encode(&envelope("future-job", "target"));
    store.add(&retry, &due, now - 10);
    store.add(&retry, &future, now + 10);

    let count = run_once(&mut store, now, &vec![retry.clone()]);

    assert_eq!(count, 1);
    // The due entry moved to its target queue.
    assert_eq!(store.queue_len(&b("target")), 1);
    assert_eq!(store.queue_item(&b("target"), 0), due);
    // The future entry is untouched.
    assert_eq!(store.set_len(&retry), 1);
    assert_eq!(store.member_score(&retry, &future), Some(now + 10));
    assert_eq!(store.member_score(&retry, &due), None);
}

#[test]
fn dispatcher_processes_sets_in_order_and_skips_malformed() {
    let now = 900u64;
    let mut store = TimeOrderedStore::new();
    let sched = b("scheduled");
    let retry = b("retry");
    let good = encode(&envelope("ok", "q1"));
    store.add(&sched, &b("not an envelope"), 100);
    store.add(&retry, &good, 200);

    let count = run_once(&mut store, now, &vec![sched.clone(), retry.clone()]);

    // The malformed member dispatches nothing but is still consumed by its
    // claim; the tick goes on to the next entry and set.
    assert_eq!(count, 1);
    assert_eq!(store.set_len(&sched), 0);
    assert_eq!(store.set_len(&retry), 0);
    assert_eq!(store.queue_len(&b("q1")), 1);
}

#[test]
fn second_dispatcher_run_finds_nothing() {
    let now = 10_000u64;
    let mut store = TimeOrderedStore::new();
    let sets = vec![b("scheduled")];
    for i in 0..5u64 {
        let e = encode(&envelope(&format!("job{i}"), "q"));
        store.add(&b("scheduled"), &e, 100 + i);
    }
    assert_eq!(run_once(&mut store, now, &sets), 5);
    assert_eq!(run_once(&mut store, now, &sets), 0);
    assert_eq!(store.queue_len(&b("q")), 5);
}

#[test]
fn daily_report_definition_advances_and_dispatches_once() {
    // A periodic definition with next-run score now-1 is advanced to the next
    // 03:00:00 strictly after now, and exactly one envelope is pushed.
    let now = 10 * 86400u64;  // 1970-01-11 00:00:00
    let mut store = TimeOrderedStore::new();
    let def = PeriodicJobDefinition {
        name: b("daily-report"),
        cron: b("0 0 3 * * *"),
        queue: b("reports"),
        class: b("ReportWorker"),
        args: vec![ArgValue::Str(b("all"))],
    };
    let member = encode_definition(&def);
    store.add(&b("periodic"), &member, now - 1);

    let count = run_once_periodic(&mut store, now);

    assert_eq!(count, 1);
    assert_eq!(store.queue_len(&b("reports")), 1);
    // Next 03:00:00 strictly after 1970-01-11 00:00:00.
    assert_eq!(store.member_score(&b("periodic"), &member), Some(now + 3 * 3600));
    // The definition itself is never removed.
    assert_eq!(store.set_len(&b("periodic")), 1);
}

#[test]
fn two_ticks_on_one_due_definition_dispatch_once() {
    // Two run_once calls over the same due definition: the first wins the
    // advance and dispatches; the second finds the score already moved.
    let now = 1000u64;
    let mut store = TimeOrderedStore::new();
    let def = PeriodicJobDefinition {
        name: b("minutely"),
        cron: b("0 * * * * *"),
        queue: b("work"),
        class: b("Tick"),
        args: vec![],
    };
    let member = encode_definition(&def);
    store.add(&b("periodic"), &member, now);

    assert_eq!(run_once_periodic(&mut store, now), 1);
    assert_eq!(run_once_periodic(&mut store, now), 0);

    assert_eq!(store.queue_len(&b("work")), 1);
    assert_eq!(store.member_score(&b("periodic"), &member), Some(1020));
    assert_eq!(store.set_len(&b("periodic")), 1);
}

#[test]
fn corrupt_periodic_definitions_are_skipped_not_removed() {
    let now = 1000u64;
    let mut store = TimeOrderedStore::new();
    store.add(&b("periodic"), &b("corrupt"), 10);
    let bad_cron = PeriodicJobDefinition {
        name: b("bad"),
        cron: b("not a cron"),
        queue: b("q"),
        class: b("C"),
        args: vec![],
    };
    let bad_member = encode_definition(&bad_cron);
    store.add(&b("periodic"), &bad_member, 20);
    let good = PeriodicJobDefinition {
        name: b("good"),
        cron: b("0 * * * * *"),
        queue: b("q"),
        class: b("C"),
        args: vec![],
    };
    let good_member = encode_definition(&good);
    store.add(&b("periodic"), &good_member, 30);

    let count = run_once_periodic(&mut store, now);

    // Corrupt entries are skipped and left in place; the good one dispatches.
    assert_eq!(count, 1);
    assert_eq!(store.set_len(&b("periodic")), 3);
    assert_eq!(store.member_score(&b("periodic"), &b("corrupt")), Some(10));
    assert_eq!(store.member_score(&b("periodic"), &bad_member), Some(20));
    assert_eq!(store.member_score(&b("periodic"), &good_member), Some(1020));
    assert_eq!(store.queue_len(&b("q")), 1);
}

#[test]
fn can_process_a_cron_job() {
    // A registered periodic definition whose score was forced due is picked
    // up by one scheduler tick and lands on its queue exactly once.
    let queue = "random123";
    let def = PeriodicJobDefinition {
        name: b("Payment report processing for a user using json args"),
        cron: b("0 * * * * *"),
        queue: b(queue),
        class: b("PaymentReportWorker"),
        args: vec![ArgValue::Str(b("json args"))],
    };
    let member = encode_definition(&def);
    let mut store = TimeOrderedStore::new();
    store.add(&b("periodic"), &member, 0);

    let now = 1_700_000_000u64;
    let n = run_once_periodic(&mut store, now);
    assert_eq!(n, 1);
    assert_eq!(store.queue_len(&b(queue)), 1);

    // The dispatched payload is a decodable envelope for the right queue.
    let payload = store.queue_item(&b(queue), 0);
    let env = dispatch_core::codec::decode(&payload).unwrap();
    assert_eq!(env.queue, b(queue));
    assert_eq!(env.class, b("PaymentReportWorker"));
    assert_eq!(env.retry, 0);
    assert_eq!(env.created, now);
    // The occurrence id is the tick timestamp, a dash, and the name.
    assert_eq!(
        env.id,
        b("1700000000-Payment report processing for a user using json args")
    );
}
