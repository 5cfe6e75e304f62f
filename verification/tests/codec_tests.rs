use dispatch_core::codec::ArgValue;
use dispatch_core::codec::JobEnvelope;
use dispatch_core::codec::PeriodicJobDefinition;
use dispatch_core::codec::decode;
use dispatch_core::codec::decode_definition;
use dispatch_core::codec::encode;
use dispatch_core::codec::encode_definition;
use dispatch_core::CodecError;

fn b(s: &str) -> Vec<u8> {
    s.as_bytes().to_vec()
}

fn sample_envelope() -> JobEnvelope {
    JobEnvelope {
        id: b("job-123"),
        class: b("PaymentWorker"),
        queue: b("payments"),
        args: vec![
            ArgValue::Str(b("user:42|with|separators")),
            ArgValue::Int(-5),
            ArgValue::Int(i64::MAX),
            ArgValue::Int(i64::MIN),
            ArgValue::Float(2.5f64.to_bits()),
            ArgValue::Bool(true),
            ArgValue::Bool(false),
            ArgValue::Null,
            ArgValue::List(vec![
                ArgValue::Int(7),
                ArgValue::Str(b("nested")),
                ArgValue::List(vec![ArgValue::Null]),
            ]),
        ],
        created: 1700000000,
        retry: 0,
        max_retries: 25,
    }
}

#[test]
fn envelope_round_trip() {
    let env = sample_envelope();
    let text = encode(&env);
    let back = decode(&text).expect("round trip must decode");
    assert_eq!(back, sample_envelope());
}

#[test]
fn envelope_round_trip_empty_fields() {
    let env = JobEnvelope {
        id: b(""),
        class: b(""),
        queue: b(""),
        args: vec![],
        created: 0,
        retry: 0,
        max_retries: 0,
    };
    let text = encode(&env);
    let back = decode(&text).expect("round trip must decode");
    assert_eq!(back.id, b(""));
    assert_eq!(back.args.len(), 0);
    assert_eq!(back.max_retries, 0);
}

#[test]
fn distinct_envelopes_get_distinct_encodings() {
    let mut a = sample_envelope();
    let mut c = sample_envelope();
    a.queue = b("q|x");
    c.queue = b("q");
    c.class = b("x|PaymentWorker");
    assert_ne!(encode(&a), encode(&c));
}

#[test]
fn float_bits_survive_round_trip() {
    let value = -12345.6789f64;
    let env = JobEnvelope {
        id: b("f"),
        class: b("C"),
        queue: b("q"),
        args: vec![ArgValue::Float(value.to_bits())],
        created: 1,
        retry: 2,
        max_retries: 3,
    };
    let back = decode(&encode(&env)).unwrap();
    match back.args[0] {
        ArgValue::Float(bits) => assert_eq!(f64::from_bits(bits), value),
        _ => panic!("expected a float argument"),
    }
}

#[test]
fn malformed_envelopes_are_rejected() {
    assert_eq!(decode(&b("")), Err(CodecError::MalformedEnvelope));
    assert_eq!(decode(&b("garbage")), Err(CodecError::MalformedEnvelope));
    // Too-short length prefix.
    assert_eq!(decode(&b("9:ab")), Err(CodecError::MalformedEnvelope));
    // Trailing bytes after a valid envelope.
    let mut text = encode(&sample_envelope());
    text.push(b'x');
    assert_eq!(decode(&text), Err(CodecError::MalformedEnvelope));
    // A truncated valid envelope.
    let mut short = encode(&sample_envelope());
    short.pop();
    assert_eq!(decode(&short), Err(CodecError::MalformedEnvelope));
    // An unknown argument tag.
    assert_eq!(
        decode(&b("1:a1:b1:c1;z0;0;0;")),
        Err(CodecError::MalformedEnvelope)
    );
}

#[test]
fn definition_round_trip() {
    let def = PeriodicJobDefinition {
        name: b("daily-report"),
        cron: b("0 0 3 * * *"),
        queue: b("reports"),
        class: b("ReportWorker"),
        args: vec![ArgValue::Str(b("all")), ArgValue::Int(1)],
    };
    let text = encode_definition(&def);
    let back = decode_definition(&text).expect("round trip must decode");
    assert_eq!(back.name, b("daily-report"));
    assert_eq!(back.cron, b("0 0 3 * * *"));
    assert_eq!(back.queue, b("reports"));
    assert_eq!(back.class, b("ReportWorker"));
    assert_eq!(back.args.len(), 2);
}

#[test]
fn malformed_definitions_are_rejected() {
    assert_eq!(
        decode_definition(&b("not a definition")),
        Err(CodecError::MalformedEnvelope)
    );
    let def = PeriodicJobDefinition {
        name: b("n"),
        cron: b("* * * * * *"),
        queue: b("q"),
        class: b("c"),
        args: vec![],
    };
    let mut text = encode_definition(&def);
    text.push(b';');
    assert_eq!(decode_definition(&text), Err(CodecError::MalformedEnvelope));
}

#[test]
fn exact_wire_format_of_a_small_envelope() {
    let env = JobEnvelope {
        id: b("a"),
        class: b("B"),
        queue: b("q"),
        args: vec![ArgValue::Int(5), ArgValue::Int(-3), ArgValue::Null],
        created: 7,
        retry: 1,
        max_retries: 2,
    };
    assert_eq!(encode(&env), b("1:a1:B1:q3;i5;i-3;n7;1;2;"));
}
