//! Environment variable lookups over the `(name, value)` pairs that the host
//! hands to a handler.

use vstd::prelude::*;
use vstd::string::StringSliceAdditionalSpecFns;
use crate::text::{eq_ci_exec, lower_seq, str_eq};
use vstd::hash_map::StringHashMap;

verus! {

/// The value of the first pair named `name`.
pub open spec fn lookup_first(env: Seq<(String, String)>, name: Seq<char>) -> Option<Seq<char>>
    decreases env.len(),
{
    if env.len() == 0 {
        None
    } else if env[0].0@ == name {
        Some(env[0].1@)
    } else {
        lookup_first(env.drop_first(), name)
    }
}

/// The value of the last pair named `name`: what a map built from the pairs
/// in order holds for it, since a later pair replaces an earlier one.
pub open spec fn lookup_last(env: Seq<(String, String)>, name: Seq<char>) -> Option<Seq<char>>
    decreases env.len(),
{
    if env.len() == 0 {
        None
    } else if env.last().0@ == name {
        Some(env.last().1@)
    } else {
        lookup_last(env.drop_last(), name)
    }
}

/// A value that reads as true: `true`, `1` or `yes`, in any ASCII case.
pub open spec fn is_truthy(v: Seq<u8>) -> bool {
    ||| lower_seq(v) == seq![0x74u8, 0x72u8, 0x75u8, 0x65u8]
    ||| v == seq![0x31u8]
    ||| lower_seq(v) == seq![0x79u8, 0x65u8, 0x73u8]
}

/// The boolean reading of an optional value.
pub open spec fn bool_of(v: Option<Seq<char>>, default: bool) -> bool {
    match v {
        Some(s) => is_truthy(vstd::utf8::encode_utf8(s)),
        None => default,
    }
}

/// The value, or the default when there is none.
pub open spec fn value_or(v: Option<Seq<char>>, default: Seq<char>) -> Seq<char> {
    match v {
        Some(s) => s,
        None => default,
    }
}

/// Does the value read as true?
fn truthy(v: &str) -> (r: bool)
    ensures
        r == is_truthy(v.spec_bytes()),
{
    let b = v.as_bytes();
    let t: [u8; 4] = [0x74, 0x72, 0x75, 0x65];
    let one: [u8; 1] = [0x31];
    let y: [u8; 3] = [0x79, 0x65, 0x73];
    proof {
        assert(t@ =~= seq![0x74u8, 0x72u8, 0x75u8, 0x65u8]);
        assert(lower_seq(t@) =~= t@);
        assert(one@ =~= seq![0x31u8]);
        assert(y@ =~= seq![0x79u8, 0x65u8, 0x73u8]);
        assert(lower_seq(y@) =~= y@);
        assert(lower_seq(b@).len() == b@.len());
    }
    eq_ci_exec(b, t.as_slice()) || crate::text::bytes_eq(b, one.as_slice()) || eq_ci_exec(b, y.as_slice())
}

/// Position of the first pair named `name`, if any.
fn find_first(env: &[(String, String)], name: &str) -> (r: Option<usize>)
    ensures
        match r {
            Some(i) => i < env@.len() && lookup_first(env@, name@) == Some(env@[i as int].1@),
            None => lookup_first(env@, name@) is None,
        },
{
    let mut i: usize = 0;
    proof { assert(env@.subrange(0, env@.len() as int) == env@); }
    while i < env.len()
        invariant
            i <= env@.len(),
            lookup_first(env@, name@) == lookup_first(env@.subrange(i as int, env@.len() as int), name@),
        decreases env.len() - i,
    {
        let ghost rest = env@.subrange(i as int, env@.len() as int);
        proof {
            assert(rest[0] == env@[i as int]);
            assert(rest.drop_first() == env@.subrange(i + 1, env@.len() as int));
        }
        if str_eq(env[i].0.as_str(), name) {
            return Some(i);
        }
        i = i + 1;
    }
    proof { assert(env@.subrange(i as int, env@.len() as int).len() == 0); }
    None
}

/// Gets an environment variable by name: the value of the first pair with
/// that name.
pub fn get(env: &[(String, String)], name: &str) -> (r: Option<String>)
    ensures
        match r {
            Some(v) => lookup_first(env@, name@) == Some(v@),
            None => lookup_first(env@, name@) is None,
        },
{
    match find_first(env, name) {
        Some(i) => Some(env[i].1.clone()),
        None => None,
    }
}

/// Gets an environment variable, or the default when it is not set.
pub fn get_or(env: &[(String, String)], name: &str, default: &str) -> (r: String)
    ensures
        r@ == value_or(lookup_first(env@, name@), default@),
{
    match get(env, name) {
        Some(v) => v,
        None => default.to_owned(),
    }
}

/// Gets an environment variable as a boolean: `true` when the value is
/// `true`, `1` or `yes` in any case, `false` for any other value, and the
/// default when the variable is not set.
pub fn bool(env: &[(String, String)], name: &str, default: bool) -> (r: bool)
    ensures
        r == bool_of(lookup_first(env@, name@), default),
{
    match find_first(env, name) {
        Some(i) => truthy(env[i].1.as_str()),
        None => default,
    }
}

/// All environment variables, in order.
pub fn all(env: &[(String, String)]) -> (r: Vec<(String, String)>)
    ensures
        r@ == env@,
{
    let mut out: Vec<(String, String)> = Vec::new();
    let mut i: usize = 0;
    while i < env.len()
        invariant
            i <= env@.len(),
            out@ == env@.subrange(0, i as int),
        decreases env.len() - i,
    {
        let k = env[i].0.clone();
        let v = env[i].1.clone();
        out.push((k, v));
        proof { assert(env@.subrange(0, i + 1) == env@.subrange(0, i as int).push(env@[i as int])); }
        i = i + 1;
    }
    proof { assert(env@.subrange(0, env@.len() as int) == env@); }
    out
}

/// Environment variables kept for repeated lookups, in a hash map keyed by
/// name. A name given more than once reads as its last value.
pub struct EnvCache {
    map: StringHashMap<String>,
    vec: Vec<(String, String)>,
}

impl View for EnvCache {
    type V = Seq<(String, String)>;

    closed spec fn view(&self) -> Seq<(String, String)> {
        self.vec@
    }
}

/// The map holds, for each name, the last value that the pairs give it.
pub open spec fn map_holds_last(m: Map<Seq<char>, String>, env: Seq<(String, String)>) -> bool {
    forall|k: Seq<char>|
        #![trigger m.contains_key(k)]
        #![trigger lookup_last(env, k)]
        (m.contains_key(k) <==> lookup_last(env, k) is Some)
            && (m.contains_key(k) ==> lookup_last(env, k) == Some(m[k]@))
}

impl EnvCache {
    #[verifier::type_invariant]
    spec fn map_matches_pairs(self) -> bool {
        map_holds_last(self.map@, self.vec@)
    }

    /// Creates a cache from the environment's pairs.
    pub fn new(env: Vec<(String, String)>) -> (r: Self)
        ensures
            r@ == env@,
    {
        let mut map: StringHashMap<String> = StringHashMap::new();
        let mut i: usize = 0;
        while i < env.len()
            invariant
                i <= env@.len(),
                map_holds_last(map@, env@.subrange(0, i as int)),
            decreases env.len() - i,
        {
            let ghost before = map@;
            let k = env[i].0.clone();
            let v = env[i].1.clone();
            map.insert(k, v);
            proof {
                let front = env@.subrange(0, i + 1);
                assert(front.drop_last() =~= env@.subrange(0, i as int));
                assert(front.last() == env@[i as int]);
                assert forall|n: Seq<char>| #[trigger] map@.contains_key(n) <==> lookup_last(front, n) is Some by {
                    if n != env@[i as int].0@ {
                        assert(map@.contains_key(n) == before.contains_key(n));
                    }
                }
                assert forall|n: Seq<char>| #[trigger] map@.contains_key(n) implies lookup_last(front, n) == Some(map@[n]@) by {
                    if n != env@[i as int].0@ {
                        assert(before.contains_key(n));
                        assert(map@[n] == before[n]);
                    }
                }
            }
            i = i + 1;
        }
        proof { assert(env@.subrange(0, env@.len() as int) =~= env@); }
        EnvCache { map, vec: env }
    }

    /// Gets an environment variable by name, with one hash map lookup.
    pub fn get(&self, name: &str) -> (r: Option<String>)
        ensures
            match r {
                Some(v) => lookup_last(self@, name@) == Some(v@),
                None => lookup_last(self@, name@) is None,
            },
    {
        proof { use_type_invariant(self); }
        match self.map.get(name) {
            Some(v) => Some(v.clone()),
            None => None,
        }
    }

    /// Gets an environment variable, or the default when it is not set.
    pub fn get_or(&self, name: &str, default: &str) -> (r: String)
        ensures
            r@ == value_or(lookup_last(self@, name@), default@),
    {
        match self.get(name) {
            Some(v) => v,
            None => default.to_owned(),
        }
    }

    /// Gets an environment variable as a boolean (see [`bool`]).
    pub fn bool(&self, name: &str, default: bool) -> (r: bool)
        ensures
            r == bool_of(lookup_last(self@, name@), default),
    {
        proof { use_type_invariant(self); }
        match self.map.get(name) {
            Some(v) => truthy(v.as_str()),
            None => default,
        }
    }

    /// All environment variables, in the order given.
    pub fn all(&self) -> (r: &[(String, String)])
        ensures
            r@ == self@,
    {
        self.vec.as_slice()
    }
}

/// Where `lookup_first` finds its value: at the first pair with the name.
proof fn lemma_lookup_first(env: Seq<(String, String)>, name: Seq<char>)
    ensures
        lookup_first(env, name) is None <==> forall|i: int| 0 <= i < env.len() ==> #[trigger] env[i].0@ != name,
        forall|i: int| 0 <= i < env.len() && #[trigger] env[i].0@ == name
            && (forall|j: int| 0 <= j < i ==> env[j].0@ != name) ==> lookup_first(env, name) == Some(env[i].1@),
    decreases env.len(),
{
    if env.len() > 0 {
        let d = env.drop_first();
        lemma_lookup_first(d, name);
        assert forall|i: int| 0 <= i < d.len() implies #[trigger] d[i] == env[i + 1] by {}
        if env[0].0@ != name {
            assert forall|i: int| 0 <= i < env.len() && #[trigger] env[i].0@ == name
                && (forall|j: int| 0 <= j < i ==> env[j].0@ != name) implies lookup_first(env, name) == Some(env[i].1@) by {
                assert(i > 0);
                assert(d[i - 1] == env[i]);
                assert forall|j: int| 0 <= j < i - 1 implies d[j].0@ != name by {
                    assert(d[j] == env[j + 1]);
                }
            }
            if lookup_first(env, name) is None {
                assert forall|i: int| 0 <= i < env.len() implies #[trigger] env[i].0@ != name by {
                    if i > 0 {
                        assert(d[i - 1] == env[i]);
                    }
                }
            }
            if forall|i: int| 0 <= i < env.len() ==> #[trigger] env[i].0@ != name {
                assert forall|i: int| 0 <= i < d.len() implies #[trigger] d[i].0@ != name by {
                    assert(d[i] == env[i + 1]);
                }
            }
        }
    }
}

/// Where `lookup_last` finds its value: at the last pair with the name.
proof fn lemma_lookup_last(env: Seq<(String, String)>, name: Seq<char>)
    ensures
        lookup_last(env, name) is None <==> forall|i: int| 0 <= i < env.len() ==> #[trigger] env[i].0@ != name,
        forall|i: int| 0 <= i < env.len() && #[trigger] env[i].0@ == name
            && (forall|j: int| i < j < env.len() ==> env[j].0@ != name) ==> lookup_last(env, name) == Some(env[i].1@),
    decreases env.len(),
{
    if env.len() > 0 {
        let d = env.drop_last();
        lemma_lookup_last(d, name);
        assert forall|i: int| 0 <= i < d.len() implies #[trigger] d[i] == env[i] by {}
        if env.last().0@ != name {
            assert forall|i: int| 0 <= i < env.len() && #[trigger] env[i].0@ == name
                && (forall|j: int| i < j < env.len() ==> env[j].0@ != name) implies lookup_last(env, name) == Some(env[i].1@) by {
                assert(i < env.len() - 1);
                assert(d[i] == env[i]);
                assert forall|j: int| i < j < d.len() implies d[j].0@ != name by {
                    assert(d[j] == env[j]);
                }
            }
            if lookup_last(env, name) is None {
                assert forall|i: int| 0 <= i < env.len() implies #[trigger] env[i].0@ != name by {
                    if i < env.len() - 1 {
                        assert(d[i] == env[i]);
                    }
                }
            }
            if forall|i: int| 0 <= i < env.len() ==> #[trigger] env[i].0@ != name {
                assert forall|i: int| 0 <= i < d.len() implies #[trigger] d[i].0@ != name by {
                    assert(d[i] == env[i]);
                }
            }
        }
    }
}

/// `EnvCache` and the plain lookups agree on whether a variable is set, and,
/// for a name given once, on its value. (For a name given more than once the
/// plain lookups read the first value and the cache the last.)
pub proof fn law_cache_agrees_with_lookup(env: Seq<(String, String)>, name: Seq<char>)
    ensures
        lookup_first(env, name) is Some <==> lookup_last(env, name) is Some,
        (forall|i: int, j: int| 0 <= i < j < env.len() && #[trigger] env[i].0@ == name ==> #[trigger] env[j].0@ != name)
            ==> lookup_first(env, name) == lookup_last(env, name),
{
    lemma_lookup_first(env, name);
    lemma_lookup_last(env, name);
    if (forall|i: int, j: int| 0 <= i < j < env.len() && #[trigger] env[i].0@ == name ==> #[trigger] env[j].0@ != name)
        && lookup_first(env, name) is Some {
        let i = choose|i: int| 0 <= i < env.len() && #[trigger] env[i].0@ == name;
        assert forall|j: int| 0 <= j < i implies env[j].0@ != name by {
            if env[j].0@ == name {
                assert(env[i].0@ != name);
            }
        }
        assert forall|j: int| i < j < env.len() implies env[j].0@ != name by {}
    }
}

/// A variable that is not set reads as the default, whatever the default.
pub proof fn law_unset_reads_default(env: Seq<(String, String)>, name: Seq<char>, default: bool, text: Seq<char>)
    requires
        forall|i: int| 0 <= i < env.len() ==> #[trigger] env[i].0@ != name,
    ensures
        bool_of(lookup_first(env, name), default) == default,
        value_or(lookup_first(env, name), text) == text,
        bool_of(lookup_last(env, name), default) == default,
        value_or(lookup_last(env, name), text) == text,
{
    lemma_lookup_first(env, name);
    lemma_lookup_last(env, name);
}

} // verus!
