//! A string-to-string map kept in ascending key order, as the layout's
//! environment variables and the process environment are.
use vstd::prelude::*;
use crate::text::{chars_of, str_eq};

verus! {

/// Code-point lexicographic order on keys: the order in which `String` keys
/// sort, since UTF-8 preserves code-point order byte by byte.
pub open spec fn key_lt(a: Seq<char>, b: Seq<char>) -> bool
    decreases a.len(),
{
    if a.len() == 0 {
        b.len() > 0
    } else if b.len() == 0 {
        false
    } else if a[0] != b[0] {
        (a[0] as int) < (b[0] as int)
    } else {
        key_lt(a.drop_first(), b.drop_first())
    }
}

/// Entries whose keys strictly ascend: no key occurs twice.
pub open spec fn keys_ascending(s: Seq<(Seq<char>, Seq<char>)>) -> bool {
    forall|i: int, j: int| 0 <= i < j < s.len() ==> key_lt(#[trigger] s[i].0, #[trigger] s[j].0)
}

/// The value of the first entry with key `k`.
pub open spec fn env_get(s: Seq<(Seq<char>, Seq<char>)>, k: Seq<char>) -> Option<Seq<char>>
    decreases s.len(),
{
    if s.len() == 0 {
        None
    } else if s[0].0 == k {
        Some(s[0].1)
    } else {
        env_get(s.drop_first(), k)
    }
}

/// The entries as a map from key to value.
pub open spec fn env_map(s: Seq<(Seq<char>, Seq<char>)>) -> Map<Seq<char>, Seq<char>> {
    Map::new(|k: Seq<char>| env_get(s, k) is Some, |k: Seq<char>| env_get(s, k)->0)
}

/// `s` with `k` bound to `v`: the value of an existing key `k` is replaced;
/// otherwise the entry goes before the first larger key.
pub open spec fn inserted(s: Seq<(Seq<char>, Seq<char>)>, k: Seq<char>, v: Seq<char>) -> Seq<
    (Seq<char>, Seq<char>),
>
    decreases s.len(),
{
    if s.len() == 0 {
        seq![(k, v)]
    } else if key_lt(s[0].0, k) {
        seq![s[0]] + inserted(s.drop_first(), k, v)
    } else if s[0].0 == k {
        seq![(k, v)] + s.drop_first()
    } else {
        seq![(k, v)] + s
    }
}

pub proof fn lemma_key_lt_irreflexive(a: Seq<char>)
    ensures
        !key_lt(a, a),
    decreases a.len(),
{
    if a.len() > 0 {
        lemma_key_lt_irreflexive(a.drop_first());
    }
}

pub proof fn lemma_key_lt_transitive(a: Seq<char>, b: Seq<char>, c: Seq<char>)
    requires
        key_lt(a, b),
        key_lt(b, c),
    ensures
        key_lt(a, c),
    decreases a.len(),
{
    if a.len() > 0 && b.len() > 0 && c.len() > 0 && a[0] == b[0] && b[0] == c[0] {
        lemma_key_lt_transitive(a.drop_first(), b.drop_first(), c.drop_first());
    }
}

pub proof fn lemma_key_lt_total(a: Seq<char>, b: Seq<char>)
    ensures
        key_lt(a, b) || a == b || key_lt(b, a),
    decreases a.len(),
{
    if a.len() > 0 && b.len() > 0 && a[0] == b[0] {
        lemma_key_lt_total(a.drop_first(), b.drop_first());
        if a.drop_first() == b.drop_first() {
            assert(a == seq![a[0]] + a.drop_first());
            assert(b == seq![b[0]] + b.drop_first());
        }
    } else if a.len() == 0 && b.len() == 0 {
        assert(a == b);
    } else if a.len() > 0 && b.len() > 0 {
        if (a[0] as int) == (b[0] as int) {
            assert(a[0] == b[0]);
        }
    }
}

/// Every key of `inserted(s, k, v)` is `k` or a key of `s`.
proof fn lemma_inserted_keys(s: Seq<(Seq<char>, Seq<char>)>, k: Seq<char>, v: Seq<char>)
    ensures
        forall|i: int|
            0 <= i < inserted(s, k, v).len() ==> (#[trigger] inserted(s, k, v)[i]).0 == k || exists|
                j: int,
            |
                0 <= j < s.len() && s[j].0 == inserted(s, k, v)[i].0,
    decreases s.len(),
{
    if s.len() > 0 && key_lt(s[0].0, k) {
        let rest = s.drop_first();
        lemma_inserted_keys(rest, k, v);
        assert forall|i: int| 0 <= i < inserted(s, k, v).len() implies (#[trigger] inserted(
            s,
            k,
            v,
        )[i]).0 == k || exists|j: int| 0 <= j < s.len() && s[j].0 == inserted(s, k, v)[i].0 by {
            if i == 0 {
                assert(s[0].0 == inserted(s, k, v)[0].0);
            } else {
                let x = inserted(rest, k, v)[i - 1];
                assert(inserted(s, k, v)[i] == x);
                if x.0 != k {
                    let j = choose|j: int| 0 <= j < rest.len() && rest[j].0 == x.0;
                    assert(s[j + 1].0 == x.0);
                }
            }
        }
    } else if s.len() > 0 && s[0].0 == k {
        assert forall|i: int| 0 <= i < inserted(s, k, v).len() implies (#[trigger] inserted(
            s,
            k,
            v,
        )[i]).0 == k || exists|j: int| 0 <= j < s.len() && s[j].0 == inserted(s, k, v)[i].0 by {
            if i > 0 {
                assert(s[i].0 == inserted(s, k, v)[i].0);
            }
        }
    } else if s.len() > 0 {
        assert forall|i: int| 0 <= i < inserted(s, k, v).len() implies (#[trigger] inserted(
            s,
            k,
            v,
        )[i]).0 == k || exists|j: int| 0 <= j < s.len() && s[j].0 == inserted(s, k, v)[i].0 by {
            if i > 0 {
                assert(s[i - 1].0 == inserted(s, k, v)[i].0);
            }
        }
    }
}

/// Looking a key up after an insertion.
proof fn lemma_inserted_get(s: Seq<(Seq<char>, Seq<char>)>, k: Seq<char>, v: Seq<char>, x: Seq<char>)
    ensures
        env_get(inserted(s, k, v), x) == (if x == k {
            Some(v)
        } else {
            env_get(s, x)
        }),
    decreases s.len(),
{
    let r = inserted(s, k, v);
    if s.len() == 0 {
        assert(r == seq![(k, v)]);
        assert(r[0] == (k, v));
        assert(r.drop_first().len() == 0);
        assert(env_get(r.drop_first(), x) is None);
    } else if key_lt(s[0].0, k) {
        lemma_inserted_get(s.drop_first(), k, v, x);
        lemma_key_lt_irreflexive(k);
        assert(r == seq![s[0]] + inserted(s.drop_first(), k, v));
        assert(r[0] == s[0]);
        assert(r.drop_first() == inserted(s.drop_first(), k, v));
    } else if s[0].0 == k {
        assert(r == seq![(k, v)] + s.drop_first());
        assert(r[0] == (k, v));
        assert(r.drop_first() == s.drop_first());
    } else {
        assert(r == seq![(k, v)] + s);
        assert(r[0] == (k, v));
        assert(r.drop_first() == s);
    }
}

/// Inserting into entries with ascending keys keeps them ascending, and acts
/// on the map they stand for as a map insertion does.
pub proof fn law_insert_keeps_order(s: Seq<(Seq<char>, Seq<char>)>, k: Seq<char>, v: Seq<char>)
    requires
        keys_ascending(s),
    ensures
        keys_ascending(inserted(s, k, v)),
        env_map(inserted(s, k, v)) == env_map(s).insert(k, v),
    decreases s.len(),
{
    let r = inserted(s, k, v);
    assert(env_map(r) =~= env_map(s).insert(k, v)) by {
        assert forall|x: Seq<char>| #[trigger] env_get(r, x) == (if x == k {
            Some(v)
        } else {
            env_get(s, x)
        }) by {
            lemma_inserted_get(s, k, v, x);
        }
    }
    if s.len() > 0 {
        let rest = s.drop_first();
        assert(keys_ascending(rest)) by {
            assert forall|i: int, j: int| 0 <= i < j < rest.len() implies key_lt(
                #[trigger] rest[i].0,
                #[trigger] rest[j].0,
            ) by {
                assert(rest[i] == s[i + 1] && rest[j] == s[j + 1]);
            }
        }
        if key_lt(s[0].0, k) {
            law_insert_keeps_order(rest, k, v);
            lemma_inserted_keys(rest, k, v);
            let ir = inserted(rest, k, v);
            assert(r == seq![s[0]] + ir);
            assert forall|i: int, j: int| 0 <= i < j < r.len() implies key_lt(
                #[trigger] r[i].0,
                #[trigger] r[j].0,
            ) by {
                assert(r[j] == ir[j - 1]);
                if i == 0 {
                    if ir[j - 1].0 != k {
                        let m = choose|m: int| 0 <= m < rest.len() && rest[m].0 == ir[j - 1].0;
                        assert(s[m + 1].0 == ir[j - 1].0);
                    }
                } else {
                    assert(r[i] == ir[i - 1]);
                }
            }
        } else if s[0].0 == k {
            assert(r == seq![(k, v)] + rest);
            assert forall|i: int, j: int| 0 <= i < j < r.len() implies key_lt(
                #[trigger] r[i].0,
                #[trigger] r[j].0,
            ) by {
                assert(r[j] == s[j]);
                if i > 0 {
                    assert(r[i] == s[i]);
                }
            }
        } else {
            lemma_key_lt_total(k, s[0].0);
            assert(r == seq![(k, v)] + s);
            assert forall|i: int, j: int| 0 <= i < j < r.len() implies key_lt(
                #[trigger] r[i].0,
                #[trigger] r[j].0,
            ) by {
                assert(r[j] == s[j - 1]);
                if i > 0 {
                    assert(r[i] == s[i - 1]);
                } else if j > 1 {
                    lemma_key_lt_transitive(k, s[0].0, s[j - 1].0);
                }
            }
        }
    } else {
        assert(r == seq![(k, v)]);
    }
}

/// Whether `a` sorts strictly before `b`.
pub fn key_less(a: &str, b: &str) -> (r: bool)
    ensures
        r == key_lt(a@, b@),
{
    let av = chars_of(a);
    let bv = chars_of(b);
    let mut i: usize = 0;
    assert(a@.skip(0) == a@ && b@.skip(0) == b@);
    while i < av.len() && i < bv.len() && av[i] == bv[i]
        invariant
            i <= av.len(),
            i <= bv.len(),
            av@ == a@,
            bv@ == b@,
            key_lt(a@, b@) == key_lt(a@.skip(i as int), b@.skip(i as int)),
        decreases av.len() - i,
    {
        assert(a@.skip(i as int).drop_first() == a@.skip(i + 1));
        assert(b@.skip(i as int).drop_first() == b@.skip(i + 1));
        i = i + 1;
    }
    if i == av.len() {
        i < bv.len()
    } else if i == bv.len() {
        false
    } else {
        av[i] < bv[i]
    }
}

/// Environment variables, kept in ascending key order, each key once.
#[derive(Debug, Default, PartialEq, Eq)]
pub struct EnvMap {
    entries: Vec<(String, String)>,
}

impl View for EnvMap {
    type V = Seq<(Seq<char>, Seq<char>)>;

    closed spec fn view(&self) -> Seq<(Seq<char>, Seq<char>)> {
        self.entries@.map_values(|e: (String, String)| (e.0@, e.1@))
    }
}

proof fn lemma_get_skip(s: Seq<(Seq<char>, Seq<char>)>, k: Seq<char>, i: int)
    requires
        0 <= i <= s.len(),
        forall|j: int| 0 <= j < i ==> s[j].0 != k,
    ensures
        env_get(s, k) == env_get(s.skip(i), k),
    decreases i,
{
    if i > 0 {
        lemma_get_skip(s.drop_first(), k, i - 1);
        assert(s.drop_first().skip(i - 1) == s.skip(i));
    } else {
        assert(s.skip(0) == s);
    }
}

proof fn lemma_inserted_skip(
    s: Seq<(Seq<char>, Seq<char>)>,
    k: Seq<char>,
    v: Seq<char>,
    i: int,
)
    requires
        0 <= i <= s.len(),
        forall|j: int| 0 <= j < i ==> key_lt(s[j].0, k),
    ensures
        inserted(s, k, v) == s.take(i) + inserted(s.skip(i), k, v),
    decreases i,
{
    if i > 0 {
        lemma_inserted_skip(s.drop_first(), k, v, i - 1);
        assert(s.drop_first().skip(i - 1) == s.skip(i));
        assert(s.take(i) == seq![s[0]] + s.drop_first().take(i - 1));
    } else {
        assert(s.skip(0) == s);
    }
}

impl EnvMap {
    /// The entries' keys strictly ascend, so each key occurs once.
    #[verifier::type_invariant]
    spec fn keys_in_order(self) -> bool {
        keys_ascending(self@)
    }

    /// An empty map.
    pub fn new() -> (r: EnvMap)
        ensures
            r@ == Seq::<(Seq<char>, Seq<char>)>::empty(),
    {
        let r = EnvMap { entries: Vec::new() };
        assert(r@ =~= Seq::<(Seq<char>, Seq<char>)>::empty());
        r
    }

    /// The number of entries.
    pub fn len(&self) -> (r: usize)
        ensures
            r == self@.len(),
            keys_ascending(self@),
    {
        proof {
            use_type_invariant(self);
        }
        self.entries.len()
    }

    /// Whether the map has no entries.
    pub fn is_empty(&self) -> (r: bool)
        ensures
            r == (self@.len() == 0),
    {
        self.entries.len() == 0
    }

    /// The key and value of the `i`-th entry in key order.
    pub fn entry(&self, i: usize) -> (r: (&String, &String))
        requires
            i < self@.len(),
        ensures
            (r.0@, r.1@) == self@[i as int],
    {
        let e = &self.entries[i];
        (&e.0, &e.1)
    }

    /// The value bound to `key`, if any.
    pub fn get(&self, key: &str) -> (r: Option<&String>)
        ensures
            r matches Some(v) ==> env_get(self@, key@) == Some(v@),
            r is None ==> env_get(self@, key@) is None,
    {
        let mut i: usize = 0;
        while i < self.entries.len()
            invariant
                i <= self@.len(),
                self@.len() == self.entries@.len(),
                forall|j: int| 0 <= j < i ==> self@[j].0 != key@,
            decreases self.entries.len() - i,
        {
            if str_eq(self.entries[i].0.as_str(), key) {
                proof {
                    lemma_get_skip(self@, key@, i as int);
                }
                return Some(&self.entries[i].1);
            }
            i = i + 1;
        }
        proof {
            lemma_get_skip(self@, key@, i as int);
        }
        None
    }

    /// Binds `key` to `value`, replacing an earlier value of `key`.
    pub fn insert(&mut self, key: String, value: String)
        ensures
            final(self)@ == inserted(old(self)@, key@, value@),
            keys_ascending(final(self)@),
            env_map(final(self)@) == env_map(old(self)@).insert(key@, value@),
    {
        proof {
            use_type_invariant(&*self);
        }
        let ghost s = self@;
        proof {
            law_insert_keeps_order(s, key@, value@);
        }
        let mut entries: Vec<(String, String)> = Vec::new();
        std::mem::swap(&mut entries, &mut self.entries);
        assert(entries@.map_values(|e: (String, String)| (e.0@, e.1@)) == s);
        let mut i: usize = 0;
        while i < entries.len() && key_less(entries[i].0.as_str(), key.as_str())
            invariant
                i <= s.len(),
                entries@.map_values(|e: (String, String)| (e.0@, e.1@)) == s,
                s.len() == entries@.len(),
                forall|j: int| 0 <= j < i ==> key_lt(s[j].0, key@),
            decreases entries.len() - i,
        {
            i = i + 1;
        }
        proof {
            lemma_inserted_skip(s, key@, value@, i as int);
        }
        if i < entries.len() && str_eq(entries[i].0.as_str(), key.as_str()) {
            entries.set(i, (key, value));
            assert(entries@.map_values(|e: (String, String)| (e.0@, e.1@)) =~= s.take(i as int) + (
            seq![(key@, value@)] + s.skip(i as int).drop_first()));
        } else {
            entries.insert(i, (key, value));
            assert(entries@.map_values(|e: (String, String)| (e.0@, e.1@)) =~= s.take(i as int) + (
            seq![(key@, value@)] + s.skip(i as int)));
        }
        self.entries = entries;
    }

    /// A copy of this map.
    pub fn duplicate(&self) -> (r: EnvMap)
        ensures
            r@ == self@,
    {
        proof {
            use_type_invariant(self);
        }
        let mut entries: Vec<(String, String)> = Vec::new();
        let mut i: usize = 0;
        while i < self.entries.len()
            invariant
                i <= self.entries@.len(),
                entries@.len() == i,
                forall|j: int|
                    0 <= j < i ==> (#[trigger] entries@[j]).0@ == self.entries@[j].0@
                        && entries@[j].1@ == self.entries@[j].1@,
            decreases self.entries.len() - i,
        {
            let e = &self.entries[i];
            entries.push((e.0.clone(), e.1.clone()));
            i = i + 1;
        }
        assert(entries@.map_values(|e: (String, String)| (e.0@, e.1@)) =~= self@);
        EnvMap { entries }
    }
}

impl Clone for EnvMap {
    fn clone(&self) -> (r: Self)
        ensures
            r@ == self@,
    {
        self.duplicate()
    }
}

} // verus!
