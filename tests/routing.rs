use log4rs_routing_appender::cache::{Cache, Entry, Policy};
use log4rs_routing_appender::context::Context;
use log4rs_routing_appender::idle_time_default;
use log4rs_routing_appender::parser::{Parser, Piece};
use log4rs_routing_appender::router::{complete, PatternRouter, Routing};
use log4rs_routing_appender::template::{decimal_string, Template, TemplateError};
use log4rs_routing_appender::value::Value;
use std::sync::Arc;

fn s(text: &str) -> Value {
    Value::Str(text.to_string())
}

fn map(entries: Vec<(&str, Value)>) -> Value {
    Value::Mapping(entries.into_iter().map(|(k, v)| (s(k), v)).collect())
}

fn ctx(entries: &[(&str, &str)]) -> Context {
    let mut c = Context::new();
    for (k, v) in entries {
        c.insert(k.to_string(), v.to_string());
    }
    c
}

fn lookup<'a>(v: &'a Value, key: &str) -> Option<&'a Value> {
    match v {
        Value::Mapping(entries) => entries.iter().find_map(|(k, v)| match k {
            Value::Str(k) if k == key => Some(v),
            _ => None,
        }),
        _ => None,
    }
}

fn string_at(v: &Value, key: &str) -> String {
    match lookup(v, key) {
        Some(Value::Str(s)) => s.clone(),
        other => panic!("no string at {}: {:?}", key, other),
    }
}

fn pieces(pattern: &str) -> Vec<String> {
    let mut parser = Parser::new(pattern);
    let mut out = vec![];
    while let Some(p) = parser.next() {
        out.push(match p {
            Piece::Text(t) => format!("T({})", t),
            Piece::Argument { name, args } => format!("A({};{})", name, args.join(",")),
            Piece::Error(e) => format!("E({})", e),
        });
    }
    out
}

#[derive(Debug)]
struct TestSink(u32);

/// Routes one event and builds on a miss, counting the builds.
fn route_once(
    router: &PatternRouter,
    c: &Context,
    cache: &mut Cache<TestSink>,
    now: u64,
    builds: &mut u32,
) -> Result<Arc<TestSink>, String> {
    match router.route(c, cache, now) {
        Routing::Cached(h) => Ok(h),
        Routing::Build { kind, config, vacant } => {
            assert_eq!(kind, "test");
            *builds += 1;
            let built = string_at(&config, "key")
                .parse::<u32>()
                .map(TestSink)
                .map_err(|e| e.to_string());
            complete(vacant, cache, built)
        }
    }
}

#[test]
fn pattern() {
    let router = PatternRouter::new("test".to_string(), &map(vec![("key", s("${mdc(key)}"))])).unwrap();
    let mut cache = Cache::new(Policy::IdleTimeout { ttl: 120_000 });
    let mut builds = 0;
    let mut appends = vec![];
    for (t, key) in ["0", "1", "0", "1"].iter().enumerate() {
        let c = ctx(&[("key", key)]);
        let sink = route_once(&router, &c, &mut cache, t as u64, &mut builds).unwrap();
        appends.push(sink.0);
    }
    assert_eq!(appends, [0, 1, 0, 1]);
    assert_eq!(builds, 2);
}

#[test]
fn parser_splits_text_escapes_and_placeholders() {
    assert_eq!(pieces("logs/${mdc(user)}/$$x"), vec!["T(logs/)", "A(mdc;user)", "T(/)", "T($)", "T(x)"]);
    assert_eq!(pieces("${mdc(a)(b c)()}"), vec!["A(mdc;a,b c,)"]);
    assert_eq!(pieces("${mdc}"), vec!["A(mdc;)"]);
    assert_eq!(pieces(""), Vec::<String>::new());
}

#[test]
fn parser_reports_syntax_errors() {
    assert_eq!(pieces("$x"), vec!["E(expected `{`)", "T(x)"]);
    assert_eq!(pieces("${mdc(a)"), vec!["E(expected `}`)"]);
    assert_eq!(pieces("${mdc(a"), vec!["E(Expected `)`)"]);
}

#[test]
fn parser_names_are_alphanumeric() {
    assert_eq!(pieces("${é1(x)}"), vec!["A(é1;x)"]);
    assert_eq!(pieces("${1a(x)}"), vec!["E(expected `}`)", "T(1a(x)})"]);
}

#[test]
fn expands_user_and_job() {
    let t = Template::new(&map(vec![("key", s("${mdc(user)}-${mdc(job)}"))])).unwrap();
    let full = t.expand(&ctx(&[("user", "a"), ("job", "1")]));
    assert_eq!(string_at(&full, "key"), "a-1");
    let partial = t.expand(&ctx(&[("user", "a")]));
    assert_eq!(string_at(&partial, "key"), "a-<missing>");
}

#[test]
fn expansion_is_repeatable_and_degrades_on_removal() {
    let t = Template::new(&map(vec![
        ("path", s("logs/${mdc(user)}.log")),
        ("list", Value::Sequence(vec![s("${mdc(user)}"), Value::U8(7)])),
    ]))
    .unwrap();
    let mut c = ctx(&[("user", "bob")]);
    let first = t.expand(&c);
    let second = t.expand(&c);
    assert_eq!(format!("{:?}", first), format!("{:?}", second));
    assert_eq!(string_at(&first, "path"), "logs/bob.log");
    c.remove(&"user".to_string());
    let third = t.expand(&c);
    assert_eq!(string_at(&third, "path"), "logs/<missing>.log");
    match lookup(&third, "list") {
        Some(Value::Sequence(items)) => {
            assert!(matches!(&items[0], Value::Str(s) if s == "<missing>"));
            assert!(matches!(&items[1], Value::U8(7)));
        }
        other => panic!("unexpected {:?}", other),
    }
}

#[test]
fn expansion_merges_equal_map_keys() {
    let t = Template::new(&map(vec![
        ("${mdc(a)}", Value::U8(1)),
        ("x", Value::U8(2)),
        ("${mdc(b)}", Value::U8(3)),
    ]))
    .unwrap();
    // both placeholders are absent, so both keys become "<missing>"
    let v = t.expand(&ctx(&[]));
    match &v {
        Value::Mapping(entries) => {
            assert_eq!(entries.len(), 2);
            assert!(matches!(&entries[0], (Value::Str(k), Value::U8(3)) if k == "<missing>"));
            assert!(matches!(&entries[1], (Value::Str(k), Value::U8(2)) if k == "x"));
        }
        other => panic!("unexpected {:?}", other),
    }
    let w = t.expand(&ctx(&[("a", "p"), ("b", "q")]));
    match &w {
        Value::Mapping(entries) => assert_eq!(entries.len(), 3),
        other => panic!("unexpected {:?}", other),
    }
}

#[test]
fn values_compare_as_trees() {
    let a = map(vec![("k", Value::Sequence(vec![s("x"), Value::Bytes(vec![1, 2])]))]);
    let b = map(vec![("k", Value::Sequence(vec![s("x"), Value::Bytes(vec![1, 2])]))]);
    let c = map(vec![("k", Value::Sequence(vec![s("x"), Value::Bytes(vec![1, 3])]))]);
    assert!(a.equals(&b));
    assert!(!a.equals(&c));
    assert!(!s("1").equals(&Value::U8(1)));
    assert!(Value::UnitStruct("u").equals(&Value::UnitStruct("u")));
}

#[test]
fn zero_arguments_is_an_argument_count_error() {
    match Template::new(&s("${mdc}")) {
        Err(TemplateError::ArgumentCount { template }) => assert_eq!(template, "${mdc}"),
        other => panic!("unexpected {:?}", other),
    }
    assert!(matches!(
        Template::new(&s("${mdc(a)(b)}")),
        Err(TemplateError::ArgumentCount { .. })
    ));
}

#[test]
fn unknown_placeholder_is_an_error() {
    match Template::new(&map(vec![("k", s("x${date(y)}"))])) {
        Err(TemplateError::UnknownFunction { name, template }) => {
            assert_eq!(name, "date");
            assert_eq!(template, "x${date(y)}");
        }
        other => panic!("unexpected {:?}", other),
    }
}

#[test]
fn syntax_errors_fail_compilation() {
    match Template::new(&Value::Sequence(vec![s("ok"), s("${mdc(a"), s("$x")])) {
        Err(TemplateError::Syntax { reason, template }) => {
            assert_eq!(reason, "Expected `)`");
            assert_eq!(template, "${mdc(a");
        }
        other => panic!("unexpected {:?}", other),
    }
    assert!(matches!(Template::new(&s("$x")), Err(TemplateError::Syntax { reason: "expected `{`", .. })));
    assert!(matches!(Template::new(&s("${mdc(a)")), Err(TemplateError::Syntax { reason: "expected `}`", .. })));
}

#[test]
fn referenced_keys_are_collected_once() {
    let t = Template::new(&map(vec![
        ("a", s("${mdc(x)}${mdc(y)}")),
        ("${mdc(z)}", Value::Optional(Some(Box::new(s("${mdc(x)}"))))),
    ]))
    .unwrap();
    let mut keys = t.referenced().clone();
    keys.sort();
    assert_eq!(keys, vec!["x", "y", "z"]);
}

#[test]
fn routing_key_prefixes_lengths() {
    let t = Template::new(&s("${mdc(user)}/${mdc(job)}")).unwrap();
    let order = t.referenced().clone();
    let key = t.key(&ctx(&[("user", "ab"), ("job", "c")]));
    let expected: String = order
        .iter()
        .map(|k| if k == "user" { "2:ab" } else { "1:c" })
        .collect();
    assert_eq!(key, expected);
    let absent = t.key(&ctx(&[("user", "ab")]));
    let expected: String = order
        .iter()
        .map(|k| if k == "user" { "2:ab" } else { "-" })
        .collect();
    assert_eq!(absent, expected);
}

#[test]
fn routing_key_counts_bytes() {
    let t = Template::new(&s("${mdc(k)}")).unwrap();
    assert_eq!(t.key(&ctx(&[("k", "é")])), "2:é");
    assert_eq!(t.key(&ctx(&[("k", "")])), "0:");
    assert_eq!(t.key(&ctx(&[])), "-");
    assert_eq!(t.key(&ctx(&[("k", "abcdefghijkl")])), "12:abcdefghijkl");
}

#[test]
fn shared_prefixes_give_distinct_keys() {
    let t = Template::new(&s("${mdc(a)}${mdc(b)}")).unwrap();
    let pairs = [
        (ctx(&[("a", "ab"), ("b", "c")]), ctx(&[("a", "a"), ("b", "bc")])),
        (ctx(&[("a", "x")]), ctx(&[("b", "x")])),
        (ctx(&[("a", "")]), ctx(&[])),
        (ctx(&[("a", "-"), ("b", "")]), ctx(&[("a", ""), ("b", "-")])),
        (ctx(&[("a", "1"), ("b", "abcdefghi-")]), ctx(&[("a", "10abcdefghi")])),
        (ctx(&[("a", "2"), ("b", "aaaaaaaaaa-")]), ctx(&[("a", "11aaaaaaaaaa")])),
        (ctx(&[("a", "1:"), ("b", "x")]), ctx(&[("a", "1"), ("b", ":x")])),
    ];
    for (c1, c2) in pairs.iter() {
        assert_ne!(t.key(c1), t.key(c2));
    }
}

#[test]
fn decimal_notation() {
    assert_eq!(decimal_string(0), "0");
    assert_eq!(decimal_string(7), "7");
    assert_eq!(decimal_string(1234), "1234");
    assert_eq!(decimal_string(usize::MAX), usize::MAX.to_string());
}

#[test]
fn idle_entry_is_purged_after_timeout() {
    let mut cache: Cache<u32> = Cache::new(Policy::IdleTimeout { ttl: 1000 });
    match cache.entry("k".to_string(), 0) {
        Entry::Vacant(v) => {
            v.insert(&mut cache, 1);
        }
        Entry::Occupied(_) => panic!("empty cache"),
    }
    assert!(matches!(cache.entry("k".to_string(), 2000), Entry::Vacant(_)));
    assert_eq!(cache.len(), 0);
}

#[test]
fn idle_entry_survives_within_timeout() {
    let mut cache: Cache<u32> = Cache::new(Policy::IdleTimeout { ttl: 1000 });
    match cache.entry("k".to_string(), 0) {
        Entry::Vacant(v) => {
            v.insert(&mut cache, 1);
        }
        Entry::Occupied(_) => panic!("empty cache"),
    }
    match cache.entry("k".to_string(), 500) {
        Entry::Occupied(e) => assert_eq!(*e.into_value(), 1),
        Entry::Vacant(_) => panic!("purged too early"),
    }
}

#[test]
fn idle_timeout_drops_only_stale_entries() {
    let mut cache: Cache<u32> = Cache::new(Policy::IdleTimeout { ttl: 10 });
    for (i, k) in ["a", "b", "c"].iter().enumerate() {
        if let Entry::Vacant(v) = cache.entry(k.to_string(), i as u64 * 5) {
            v.insert(&mut cache, i as u32);
        }
    }
    // a was used at 0, b at 5, c at 10: at 15 both a and b have been idle for 10
    assert!(matches!(cache.entry("c".to_string(), 15), Entry::Occupied(_)));
    assert_eq!(cache.len(), 1);
    // exactly the timeout counts as idle
    assert!(matches!(cache.entry("c".to_string(), 25), Entry::Vacant(_)));
}

#[test]
fn lru_evicts_least_recently_used() {
    let mut cache: Cache<u32> = Cache::new(Policy::BoundedLru { capacity: 2 });
    for (i, k) in ["a", "b", "c"].iter().enumerate() {
        if let Entry::Vacant(v) = cache.entry(k.to_string(), 0) {
            v.insert(&mut cache, i as u32);
        }
    }
    assert_eq!(cache.len(), 2);
    assert!(matches!(cache.entry("b".to_string(), 0), Entry::Occupied(_)));
    assert!(matches!(cache.entry("c".to_string(), 0), Entry::Occupied(_)));
    assert!(matches!(cache.entry("a".to_string(), 0), Entry::Vacant(_)));
}

#[test]
fn lru_access_prevents_eviction() {
    let mut cache: Cache<u32> = Cache::new(Policy::BoundedLru { capacity: 2 });
    for (i, k) in ["a", "b"].iter().enumerate() {
        if let Entry::Vacant(v) = cache.entry(k.to_string(), 0) {
            v.insert(&mut cache, i as u32);
        }
    }
    assert!(matches!(cache.entry("a".to_string(), 0), Entry::Occupied(_)));
    if let Entry::Vacant(v) = cache.entry("c".to_string(), 0) {
        v.insert(&mut cache, 2);
    }
    assert!(matches!(cache.entry("a".to_string(), 0), Entry::Occupied(_)));
    assert!(matches!(cache.entry("b".to_string(), 0), Entry::Vacant(_)));
}

#[test]
fn lru_with_zero_capacity_keeps_nothing() {
    let mut cache: Cache<u32> = Cache::new(Policy::BoundedLru { capacity: 0 });
    if let Entry::Vacant(v) = cache.entry("a".to_string(), 0) {
        assert_eq!(*v.insert(&mut cache, 5), 5);
    }
    assert_eq!(cache.len(), 0);
}

#[test]
fn or_insert_with_builds_only_on_miss() {
    let mut cache: Cache<u32> = Cache::new(Policy::BoundedLru { capacity: 4 });
    let first = cache.entry("a".to_string(), 0).or_insert_with(&mut cache, || 9);
    let second = cache.entry("a".to_string(), 1).or_insert_with(&mut cache, || panic!("built twice"));
    assert!(Arc::ptr_eq(&first, &second));
}

#[test]
fn same_context_gives_same_sink_instance() {
    let router = PatternRouter::new(
        "test".to_string(),
        &map(vec![("key", s("${mdc(n)}")), ("other", s("${mdc(n)}-${mdc(m)}"))]),
    )
    .unwrap();
    let mut cache = Cache::new(Policy::IdleTimeout { ttl: 100 });
    let mut builds = 0;
    let c1 = ctx(&[("n", "3"), ("m", "x"), ("unrelated", "1")]);
    let c2 = ctx(&[("m", "x"), ("n", "3"), ("unrelated", "2")]);
    let a = route_once(&router, &c1, &mut cache, 0, &mut builds).unwrap();
    let b = route_once(&router, &c2, &mut cache, 1, &mut builds).unwrap();
    assert!(Arc::ptr_eq(&a, &b));
    assert_eq!(builds, 1);
    for t in 2..10 {
        let h = route_once(&router, &c1, &mut cache, t, &mut builds).unwrap();
        assert!(Arc::ptr_eq(&a, &h));
    }
    assert_eq!(builds, 1);
}

#[test]
fn failed_build_leaves_cache_unchanged() {
    let router = PatternRouter::new("test".to_string(), &map(vec![("key", s("${mdc(n)}"))])).unwrap();
    let mut cache = Cache::new(Policy::BoundedLru { capacity: 8 });
    let mut builds = 0;
    let bad = ctx(&[("n", "not a number")]);
    assert!(route_once(&router, &bad, &mut cache, 0, &mut builds).is_err());
    assert_eq!(cache.len(), 0);
    assert!(route_once(&router, &bad, &mut cache, 1, &mut builds).is_err());
    assert_eq!(builds, 2);
    let good = ctx(&[("n", "4")]);
    assert_eq!(route_once(&router, &good, &mut cache, 2, &mut builds).unwrap().0, 4);
    assert_eq!(cache.len(), 1);
}

#[test]
fn router_reports_template_errors() {
    assert!(matches!(
        PatternRouter::new("file".to_string(), &map(vec![("path", s("${mdc}"))])),
        Err(TemplateError::ArgumentCount { .. })
    ));
}

#[test]
fn context_insert_get_remove() {
    let mut c = Context::new();
    c.insert("a".to_string(), "1".to_string());
    c.insert("a".to_string(), "2".to_string());
    assert_eq!(c.get(&"a".to_string()).map(|s| s.as_str()), Some("2"));
    c.remove(&"a".to_string());
    assert_eq!(c.get(&"a".to_string()), None);
}

#[test]
fn default_idle_time_is_two_minutes() {
    assert_eq!(idle_time_default(), 120);
}
