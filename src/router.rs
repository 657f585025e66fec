//! Routing: choosing the cached sink for a context, or saying what to build.
use vstd::prelude::*;
use std::sync::Arc;
use crate::cache::{
    Cache, Entry, VacantEntry, Item, Policy, expired, inserted, purged, has_key, position_of, touched,
    unique_keys, used_by, lemma_inserted, lemma_expired_prefix,
};
use crate::context::Context;
use crate::template::{
    Template, TemplateError, compile, expand, routing_key, referenced_keys, key_part,
    lemma_routing_key_reads_only,
};
use crate::value::Value;

verus! {

/// What routing decided for one event.
pub enum Routing<V> {
    /// A sink is cached for the routing key.
    Cached(Arc<V>),
    /// No sink is cached: build one of kind `kind` from `config`, then hand the
    /// outcome to `complete` together with `vacant`.
    Build { kind: String, config: Value, vacant: VacantEntry },
}

/// A router that builds each sink from a configuration template expanded
/// against the context, and caches it under the routing key of the context.
#[derive(Debug)]
pub struct PatternRouter {
    kind: String,
    template: Template,
}

impl PatternRouter {
    pub closed spec fn kind(&self) -> Seq<char> {
        self.kind@
    }

    pub closed spec fn template(&self) -> Template {
        self.template
    }

    pub open spec fn wf(&self) -> bool {
        self.template().wf()
    }

    /// A router for sinks of kind `kind` whose configuration is `pattern`.
    pub fn new(kind: String, pattern: &Value) -> (r: Result<PatternRouter, TemplateError>)
        ensures
            match compile(pattern@) {
                Ok(t) => r is Ok && r->Ok_0.wf() && r->Ok_0.template().tree() == t
                    && r->Ok_0.kind() == kind@,
                Err(e) => r is Err && r->Err_0@ == e,
            },
    {
        match Template::new(pattern) {
            Ok(template) => Ok(PatternRouter { kind, template }),
            Err(e) => Err(e),
        }
    }

    /// Looks the routing key of `ctx` up in `cache` at time `now`.
    ///
    /// On a hit the cached handle comes back. On a miss the cache is left as
    /// the lookup left it, and the configuration to build from is the
    /// template expanded against `ctx`.
    pub fn route<V>(&self, ctx: &Context, cache: &mut Cache<V>, now: u64) -> (r: Routing<V>)
        requires
            ctx.wf(),
            old(cache).wf(),
            used_by(old(cache).items(), now),
        ensures
            final(cache).wf(),
            used_by(final(cache).items(), now),
            final(cache).policy() == old(cache).policy(),
            ({
                let key = routing_key(self.template().key_order(), ctx@);
                let p = purged(old(cache).items(), old(cache).policy(), now);
                if has_key(p, key) {
                    let i = position_of(p, key);
                    &&& r == Routing::Cached(p[i].1)
                    &&& final(cache).items() == touched(p, i, now)
                } else {
                    &&& r is Build
                    &&& r->kind@ == self.kind()
                    &&& r->config@ == expand(self.template().tree(), ctx@)
                    &&& r->vacant.key() == key
                    &&& r->vacant.time() == now
                    &&& final(cache).items() == p
                }
            }),
    {
        let key = self.template.key(ctx);
        match cache.entry(key, now) {
            Entry::Occupied(e) => Routing::Cached(e.into_value()),
            Entry::Vacant(vacant) => {
                let config = self.template.expand(ctx);
                Routing::Build { kind: self.kind.clone(), config, vacant }
            },
        }
    }
}

/// Finishes a miss with the outcome of the build: a built sink is stored and
/// its handle returned; a failure leaves the cache as it is, so that the next
/// event for the key builds again.
pub fn complete<V, E>(vacant: VacantEntry, cache: &mut Cache<V>, built: Result<V, E>) -> (r: Result<
    Arc<V>,
    E,
>)
    requires
        old(cache).wf(),
        used_by(old(cache).items(), vacant.time()),
    ensures
        final(cache).wf(),
        final(cache).policy() == old(cache).policy(),
        match built {
            Ok(v) => r is Ok && r->Ok_0 == v && final(cache).items() == inserted(
                old(cache).items(),
                old(cache).policy(),
                vacant.key(),
                r->Ok_0,
                vacant.time(),
            ),
            Err(e) => r == Err::<Arc<V>, E>(e) && final(cache).items() == old(cache).items(),
        },
{
    match built {
        Ok(v) => Ok(vacant.insert(cache, v)),
        Err(e) => Err(e),
    }
}

/// Two contexts that agree on every key a template refers to get the same
/// routing key. So once the sink built for the first is stored, and neither
/// the idle timeout nor the capacity has dropped it, the lookup for the
/// second finds that very handle.
pub proof fn lemma_same_context_same_sink<V>(
    t: Template,
    c1: Map<Seq<char>, Seq<char>>,
    c2: Map<Seq<char>, Seq<char>>,
    s: Seq<Item<V>>,
    policy: Policy,
    v: Arc<V>,
    time: u64,
    now: u64,
)
    requires
        t.wf(),
        unique_keys(s),
        forall|k: Seq<char>|
            #[trigger] referenced_keys(t.tree()).contains(k) ==> c1.contains_key(k) == c2.contains_key(k)
                && (c1.contains_key(k) ==> c1[k] == c2[k]),
        match policy {
            Policy::IdleTimeout { ttl } => !expired(time, now, ttl),
            Policy::BoundedLru { capacity } => capacity > 0,
        },
    ensures
        routing_key(t.key_order(), c1) == routing_key(t.key_order(), c2),
        ({
            let p = purged(
                inserted(s, policy, routing_key(t.key_order(), c1), v, time),
                policy,
                now,
            );
            &&& has_key(p, routing_key(t.key_order(), c2))
            &&& p[position_of(p, routing_key(t.key_order(), c2))].1 == v
        }),
{
    let ko = t.key_order();
    assert forall|k: Seq<char>| #[trigger] ko.contains(k) implies key_part(c1, k) == key_part(c2, k) by {
        assert(referenced_keys(t.tree()).contains(k));
    }
    lemma_routing_key_reads_only(ko, c1, c2);
    let key = routing_key(ko, c1);
    let f = inserted(s, policy, key, v, time);
    lemma_inserted(s, policy, key, v, time);
    let p = purged(f, policy, now);
    let last = f.len() - 1;
    assert(f[last] == (key, v, time));
    let q: int = match policy {
        Policy::IdleTimeout { ttl } => {
            lemma_expired_prefix(f, now, ttl);
            let n = crate::cache::expired_prefix(f, now, ttl) as int;
            if n > last {
                assert(expired(f[last].2, now, ttl));
            }
            assert(n <= last);
            assert(p == f.skip(n));
            assert(p[last - n] == f[last]);
            last - n
        },
        Policy::BoundedLru { .. } => last,
    };
    assert(p[q].0 == key);
    assert(has_key(p, key));
    let j = position_of(p, key);
    assert(unique_keys(p)) by {
        assert forall|a: int, b: int| 0 <= a < p.len() && 0 <= b < p.len() && a != b implies p[a].0 != p[b].0 by {
            let d = f.len() - p.len();
            assert(p[a] == f[a + d]);
            assert(p[b] == f[b + d]);
        }
    }
    assert(j == q);
}

/// Whatever happened to the cache in between, while the entry stored for one
/// context is still there and has not been idle for the whole timeout, a
/// lookup for any context that agrees with it on the referenced keys finds
/// that entry's handle.
pub proof fn lemma_agreeing_context_finds_entry<V>(
    t: Template,
    c1: Map<Seq<char>, Seq<char>>,
    c2: Map<Seq<char>, Seq<char>>,
    s: Seq<Item<V>>,
    i: int,
    policy: Policy,
    now: u64,
)
    requires
        t.wf(),
        unique_keys(s),
        0 <= i < s.len(),
        s[i].0 == routing_key(t.key_order(), c1),
        forall|k: Seq<char>|
            #[trigger] referenced_keys(t.tree()).contains(k) ==> c1.contains_key(k) == c2.contains_key(k)
                && (c1.contains_key(k) ==> c1[k] == c2[k]),
        policy matches Policy::IdleTimeout { ttl } ==> !expired(s[i].2, now, ttl),
    ensures
        ({
            let p = purged(s, policy, now);
            let key = routing_key(t.key_order(), c2);
            &&& has_key(p, key)
            &&& p[position_of(p, key)].1 == s[i].1
        }),
{
    let ko = t.key_order();
    assert forall|k: Seq<char>| #[trigger] ko.contains(k) implies key_part(c1, k) == key_part(c2, k) by {
        assert(referenced_keys(t.tree()).contains(k));
    }
    lemma_routing_key_reads_only(ko, c1, c2);
    let key = routing_key(ko, c2);
    let p = purged(s, policy, now);
    let q: int = match policy {
        Policy::IdleTimeout { ttl } => {
            lemma_expired_prefix(s, now, ttl);
            let n = crate::cache::expired_prefix(s, now, ttl) as int;
            if n > i {
                assert(expired(s[i].2, now, ttl));
            }
            assert(p == s.skip(n));
            assert(p[i - n] == s[i]);
            i - n
        },
        Policy::BoundedLru { .. } => i,
    };
    assert(p[q].0 == key);
    assert(has_key(p, key));
    let j = position_of(p, key);
    assert(unique_keys(p)) by {
        assert forall|a: int, b: int| 0 <= a < p.len() && 0 <= b < p.len() && a != b implies p[a].0 != p[b].0 by {
            let d = s.len() - p.len();
            assert(p[a] == s[a + d]);
            assert(p[b] == s[b + d]);
        }
    }
    assert(j == q);
}

} // verus!
