use vstd::prelude::*;
use vstd::string::StringExecFns;
use vstd::string::StrSliceExecFns;
use crate::error::Error;
use crate::strutil::{chars_of, str_eq};

verus! {

/// A mapping from names to values: a secret set fetched from the provider,
/// or the environment of one orchestrated service.  Keys are unique; the
/// entry order is the insertion order, which keeps iteration deterministic.
#[derive(Debug)]
pub struct EnvMap {
    entries: Vec<(String, String)>,
}

impl View for EnvMap {
    type V = Map<Seq<char>, Seq<char>>;

    closed spec fn view(&self) -> Map<Seq<char>, Seq<char>> {
        Map::new(
            |k: Seq<char>| exists|i: int| 0 <= i < self.kvs().len() && #[trigger] self.kvs()[i].0 == k,
            |k: Seq<char>|
                {
                    let i = choose|i: int|
                        0 <= i < self.kvs().len() && #[trigger] self.kvs()[i].0 == k;
                    self.kvs()[i].1
                },
        )
    }
}

/// The entries of a vector of string pairs, as character sequences.
spec fn kvs_of(entries: Seq<(String, String)>) -> Seq<(Seq<char>, Seq<char>)> {
    Seq::new(entries.len(), |i: int| (entries[i].0@, entries[i].1@))
}

impl EnvMap {
    /// The entries as key/value character sequences, in entry order.
    pub closed spec fn kvs(&self) -> Seq<(Seq<char>, Seq<char>)> {
        kvs_of(self.entries@)
    }

    /// The keys in entry order.
    pub open spec fn keys_seq(&self) -> Seq<Seq<char>> {
        self.kvs().map_values(|p: (Seq<char>, Seq<char>)| p.0)
    }

    /// Keys are pairwise distinct.  This holds of every `EnvMap` value, as
    /// the type invariant; `use_type_invariant` recovers it.
    #[verifier::type_invariant]
    pub open spec fn inv(&self) -> bool {
        forall|i: int, j: int|
            0 <= i < j < self.kvs().len() ==> (#[trigger] self.kvs()[i]).0 != (
            #[trigger] self.kvs()[j]).0
    }

    proof fn lemma_characterize(&self)
        requires
            self.inv(),
        ensures
            forall|i: int|
                0 <= i < self.kvs().len() ==> self@.contains_key(
                    (#[trigger] self.kvs()[i]).0,
                ) && self@[self.kvs()[i].0] == self.kvs()[i].1,
            forall|k: Seq<char>|
                #[trigger] self@.contains_key(k) ==> exists|i: int|
                    0 <= i < self.kvs().len() && (#[trigger] self.kvs()[i]).0 == k,
    {
        assert forall|i: int|
            0 <= i < self.kvs().len() implies self@.contains_key(
            (#[trigger] self.kvs()[i]).0,
        ) && self@[self.kvs()[i].0] == self.kvs()[i].1 by {
            let k = self.kvs()[i].0;
            assert(self@.dom().contains(k));
            let w = choose|w: int| 0 <= w < self.kvs().len() && #[trigger] self.kvs()[w].0 == k;
            assert(w == i);
        }
    }

    /// The facts a caller needs to reason about the map and its entries:
    /// each entry is in the map, each key of the map has an entry, keys are
    /// distinct, and the domain is finite with one key per entry.
    pub proof fn lemma_model(&self)
        requires
            self.inv(),
        ensures
            forall|i: int|
                0 <= i < self.kvs().len() ==> self@.contains_key(
                    (#[trigger] self.kvs()[i]).0,
                ) && self@[self.kvs()[i].0] == self.kvs()[i].1,
            forall|k: Seq<char>|
                #[trigger] self@.contains_key(k) ==> exists|i: int|
                    0 <= i < self.kvs().len() && (#[trigger] self.kvs()[i]).0 == k,
            forall|i: int, j: int|
                0 <= i < j < self.kvs().len() ==> (#[trigger] self.kvs()[i]).0 != (
                #[trigger] self.kvs()[j]).0,
            self@.dom().finite(),
            self@.dom().len() == self.kvs().len(),
    {
        self.lemma_characterize();
        let keys = self.keys_seq();
        assert(keys.no_duplicates());
        keys.unique_seq_to_set();
        assert(self@.dom() =~= keys.to_set()) by {
            assert forall|k: Seq<char>| #[trigger] self@.dom().contains(k) implies keys.to_set()
                .contains(k) by {
                let i = choose|i: int|
                    0 <= i < self.kvs().len() && (#[trigger] self.kvs()[i]).0 == k;
                assert(keys[i] == k);
            }
            assert forall|k: Seq<char>| #[trigger] keys.to_set().contains(k) implies self@.dom()
                .contains(k) by {
                let i = choose|i: int| 0 <= i < keys.len() && keys[i] == k;
                assert(self.kvs()[i].0 == k);
            }
        }
    }

    /// An empty map.
    pub fn new() -> (r: EnvMap)
        ensures
            r@ == Map::<Seq<char>, Seq<char>>::empty(),
            r.kvs() == Seq::<(Seq<char>, Seq<char>)>::empty(),
    {
        let r = EnvMap { entries: Vec::new() };
        proof {
            assert(r.kvs() =~= Seq::<(Seq<char>, Seq<char>)>::empty());
            assert(r@ =~= Map::<Seq<char>, Seq<char>>::empty());
        }
        r
    }

    /// The number of entries (one per key).
    pub fn len(&self) -> (r: usize)
        ensures
            r == self.kvs().len(),
    {
        self.entries.len()
    }

    /// Whether the map holds no entry.
    pub fn is_empty(&self) -> (r: bool)
        ensures
            r == (self.kvs().len() == 0),
            r == (self@ =~= Map::<Seq<char>, Seq<char>>::empty()),
    {
        proof {
            use_type_invariant(self);
            self.lemma_model();
            if self.kvs().len() > 0 {
                assert(self@.contains_key(self.kvs()[0].0));
            } else {
                assert(self@ =~= Map::<Seq<char>, Seq<char>>::empty());
            }
        }
        self.entries.len() == 0
    }

    /// The key of the entry at `i`.
    pub fn key_at(&self, i: usize) -> (r: &String)
        requires
            i < self.kvs().len(),
        ensures
            r@ == self.kvs()[i as int].0,
    {
        &self.entries[i].0
    }

    /// The value of the entry at `i`.
    pub fn val_at(&self, i: usize) -> (r: &String)
        requires
            i < self.kvs().len(),
        ensures
            r@ == self.kvs()[i as int].1,
    {
        &self.entries[i].1
    }

    /// Looks the key up.
    pub fn get(&self, key: &str) -> (r: Option<&String>)
        ensures
            match r {
                Some(v) => self@.contains_key(key@) && v@ == self@[key@],
                None => !self@.contains_key(key@),
            },
    {
        proof {
            use_type_invariant(self);
            self.lemma_characterize();
        }
        let n = self.entries.len();
        let mut i: usize = 0;
        while i < n
            invariant
                i <= n,
                n == self.kvs().len(),
                self.inv(),
                forall|j: int| 0 <= j < i ==> (#[trigger] self.kvs()[j]).0 != key@,
            decreases n - i,
        {
            if str_eq(self.entries[i].0.as_str(), key) {
                proof {
                    self.lemma_characterize();
                    assert(self.kvs()[i as int].0 == key@);
                }
                return Some(&self.entries[i].1);
            }
            i += 1;
        }
        proof {
            self.lemma_characterize();
            if self@.contains_key(key@) {
                let w = choose|w: int|
                    0 <= w < self.kvs().len() && (#[trigger] self.kvs()[w]).0 == key@;
            }
        }
        None
    }

    /// Whether the key is present.
    pub fn contains_key(&self, key: &str) -> (r: bool)
        ensures
            r == self@.contains_key(key@),
    {
        self.get(key).is_some()
    }

    /// Inserts or replaces the entry for `key`.  A fresh key goes to the end
    /// of the entry order; a present key keeps its position, with the value
    /// replaced.
    pub fn insert(&mut self, key: String, value: String)
        ensures
            final(self)@ == old(self)@.insert(key@, value@),
            old(self)@.contains_key(key@) ==> {
                &&& final(self).kvs().len() == old(self).kvs().len()
                &&& forall|j: int|
                    0 <= j < old(self).kvs().len() ==> (#[trigger] final(self).kvs()[j]).0 == old(
                        self,
                    ).kvs()[j].0 && final(self).kvs()[j].1 == (if old(self).kvs()[j].0 == key@ {
                        value@
                    } else {
                        old(self).kvs()[j].1
                    })
            },
            !old(self)@.contains_key(key@) ==> final(self).kvs() == old(self).kvs().push(
                (key@, value@),
            ),
    {
        proof {
            use_type_invariant(&*self);
            self.lemma_characterize();
        }
        let ghost pre = *self;
        let mut entries: Vec<(String, String)> = Vec::new();
        core::mem::swap(&mut entries, &mut self.entries);
        proof {
            assert(self.kvs() =~= Seq::<(Seq<char>, Seq<char>)>::empty());
            assert(kvs_of(entries@) == pre.kvs());
        }
        let n = entries.len();
        let mut i: usize = 0;
        let mut replaced = false;
        while i < n && !replaced
            invariant
                i <= n,
                n == entries@.len(),
                !replaced ==> kvs_of(entries@) == pre.kvs(),
                !replaced ==> forall|j: int| 0 <= j < i ==> (#[trigger] pre.kvs()[j]).0 != key@,
                replaced ==> {
                    &&& 0 < i <= n
                    &&& kvs_of(entries@).len() == pre.kvs().len()
                    &&& pre.kvs()[i - 1].0 == key@
                    &&& kvs_of(entries@)[i - 1] == (key@, value@)
                    &&& forall|j: int|
                        0 <= j < pre.kvs().len() && j != i - 1 ==> #[trigger] kvs_of(entries@)[j]
                            == pre.kvs()[j]
                },
            decreases n - i,
        {
            if str_eq(entries[i].0.as_str(), key.as_str()) {
                let _ = entries.remove(i);
                entries.insert(i, (key.clone(), value.clone()));
                proof {
                    assert(kvs_of(entries@).len() == pre.kvs().len());
                    assert(kvs_of(entries@)[i as int] == (key@, value@));
                    assert forall|j: int|
                        0 <= j < pre.kvs().len() && j != i implies #[trigger] kvs_of(entries@)[j]
                        == pre.kvs()[j] by {}
                }
                replaced = true;
            }
            i += 1;
        }
        if !replaced {
            proof {
                pre.lemma_characterize();
                if pre@.contains_key(key@) {
                    let w = choose|w: int|
                        0 <= w < pre.kvs().len() && (#[trigger] pre.kvs()[w]).0 == key@;
                }
            }
            entries.push((key, value));
            proof {
                assert(kvs_of(entries@) =~= pre.kvs().push((key@, value@)));
            }
        }
        core::mem::swap(&mut entries, &mut self.entries);
        proof {
            assert(self.inv());
            self.lemma_characterize();
            pre.lemma_characterize();
            let target = pre@.insert(key@, value@);
            assert forall|k: Seq<char>| #[trigger] self@.contains_key(k) implies target
                .contains_key(k) && self@[k] == target[k] by {
                let j = choose|j: int|
                    0 <= j < self.kvs().len() && (#[trigger] self.kvs()[j]).0 == k;
                if replaced {
                    if j == i - 1 {
                        assert(k == key@);
                        assert(self@[k] == value@);
                    } else {
                        assert(self.kvs()[j] == pre.kvs()[j]);
                        assert(pre.kvs()[i as int - 1].0 == key@);
                        assert(k != key@);
                        assert(pre@.contains_key(k) && pre@[k] == pre.kvs()[j].1);
                    }
                } else {
                    if j == pre.kvs().len() {
                        assert(k == key@);
                        assert(self@[k] == value@);
                    } else {
                        assert(self.kvs()[j] == pre.kvs()[j]);
                        assert(pre.kvs()[j].0 != key@);
                        assert(pre@.contains_key(k) && pre@[k] == pre.kvs()[j].1);
                    }
                }
            }
            assert forall|k: Seq<char>| #[trigger] target.contains_key(k) implies self@
                .contains_key(k) by {
                if k == key@ {
                    if replaced {
                        assert(self.kvs()[i as int - 1].0 == k);
                    } else {
                        assert(self.kvs()[pre.kvs().len() as int].0 == k);
                    }
                } else {
                    let j = choose|j: int|
                        0 <= j < pre.kvs().len() && (#[trigger] pre.kvs()[j]).0 == k;
                    if replaced {
                        assert(j != i - 1);
                        assert(self.kvs()[j].0 == k);
                    } else {
                        assert(self.kvs()[j].0 == k);
                    }
                }
            }
            assert(self@ =~= target);
        }
    }
}

impl PartialEq for EnvMap {
    fn eq(&self, other: &Self) -> (r: bool) {
        proof {
            use_type_invariant(self);
            use_type_invariant(other);
            self.lemma_model();
            other.lemma_model();
        }
        let n = self.entries.len();
        if n != other.entries.len() {
            proof {
                if self@ == other@ {
                    assert(self@.dom().len() == other@.dom().len());
                    assert(false);
                }
            }
            return false;
        }
        let mut i: usize = 0;
        while i < n
            invariant
                i <= n,
                n == self.kvs().len(),
                n == other.kvs().len(),
                self.inv(),
                other.inv(),
                forall|j: int|
                    0 <= j < i ==> other@.contains_key((#[trigger] self.kvs()[j]).0) && other@[
                        self.kvs()[j].0] == self.kvs()[j].1,
            decreases n - i,
        {
            let key = &self.entries[i].0;
            let value = &self.entries[i].1;
            proof {
                self.lemma_model();
                assert(self.kvs()[i as int].0 == key@);
                assert(self.kvs()[i as int].1 == value@);
                assert(self@.contains_key(key@) && self@[key@] == value@);
            }
            match other.get(key.as_str()) {
                None => {
                    proof {
                        assert(self@.contains_key(key@));
                        assert(!other@.contains_key(key@));
                    }
                    return false;
                },
                Some(v) => {
                    if !v.eq(value) {
                        proof {
                            assert(self@[key@] != other@[key@]);
                        }
                        return false;
                    }
                },
            }
            i += 1;
        }
        proof {
            self.lemma_model();
            other.lemma_model();
            assert forall|k: Seq<char>| #[trigger] self@.contains_key(k) implies other@
                .contains_key(k) && self@[k] == other@[k] by {
                let j = choose|j: int|
                    0 <= j < self.kvs().len() && (#[trigger] self.kvs()[j]).0 == k;
            }
            assert(self@.dom().subset_of(other@.dom()));
            assert(self@.dom().len() == other@.dom().len());
            vstd::set_lib::lemma_subset_equality(self@.dom(), other@.dom());
            assert(self@ =~= other@);
        }
        true
    }
}

impl vstd::std_specs::cmp::PartialEqSpecImpl for EnvMap {
    open spec fn obeys_eq_spec() -> bool {
        true
    }

    open spec fn eq_spec(&self, other: &Self) -> bool {
        self@ == other@
    }
}

impl Clone for EnvMap {
    fn clone(&self) -> (r: Self)
        ensures
            r.kvs() == self.kvs(),
            r@ == self@,
    {
        proof {
            use_type_invariant(self);
        }
        let n = self.entries.len();
        let mut entries: Vec<(String, String)> = Vec::new();
        let mut i: usize = 0;
        while i < n
            invariant
                i <= n,
                n == self.entries@.len(),
                entries@ =~= self.entries@.take(i as int),
            decreases n - i,
        {
            entries.push((self.entries[i].0.clone(), self.entries[i].1.clone()));
            proof {
                assert(entries@ =~= self.entries@.take(i as int).push(self.entries@[i as int]));
                assert(entries@ =~= self.entries@.take(i as int + 1));
            }
            i += 1;
        }
        proof {
            assert(entries@ =~= self.entries@);
            assert(kvs_of(entries@) =~= self.kvs());
        }
        let r = EnvMap { entries };
        proof {
            assert(r.kvs() =~= self.kvs());
        }
        r
    }
}

/// The position of the first `=` in `s`, scanning from `i`; the length of
/// `s` when there is none.
pub open spec fn first_eq_from(s: Seq<char>, i: int) -> int
    decreases s.len() - i,
{
    if i < 0 || i >= s.len() {
        s.len() as int
    } else if s[i] == '=' {
        i
    } else {
        first_eq_from(s, i + 1)
    }
}

/// The position of the first `=` in `s`, or its length when there is none.
pub open spec fn first_eq(s: Seq<char>) -> int {
    first_eq_from(s, 0)
}

/// A well-formed `NAME=VALUE` entry: it holds an `=`, with a non-empty name
/// before the first one and a non-empty value after it.
pub open spec fn env_pair_ok(s: Seq<char>) -> bool {
    let p = first_eq(s);
    0 < p < s.len() && p + 1 < s.len()
}

/// The message reported for an entry that is not `NAME=VALUE`.
pub open spec fn msg_cannot_parse_env(s: Seq<char>) -> Seq<char> {
    "Cannot parse env var: "@ + s
}

proof fn lemma_first_eq_step(s: Seq<char>, k: int, i: int)
    requires
        0 <= k <= i <= s.len(),
        forall|j: int| 0 <= j < i ==> s[j] != '=',
    ensures
        first_eq_from(s, k) == first_eq_from(s, i),
    decreases i - k,
{
    if k < i {
        lemma_first_eq_step(s, k + 1, i);
    }
}

/// Splits a `NAME=VALUE` entry at its first `=`.  Entries without an `=`,
/// with an empty name or with an empty value are rejected, with the exact
/// message stated.
pub fn parse_env_pair(env_var: &str) -> (r: Result<(String, String), Error>)
    ensures
        match r {
            Ok(p) => env_pair_ok(env_var@) && p.0@ == env_var@.take(first_eq(env_var@))
                && p.1@ == env_var@.skip(first_eq(env_var@) + 1),
            Err(e) => !env_pair_ok(env_var@) && e@ == msg_cannot_parse_env(env_var@),
        },
{
    let chars = chars_of(env_var);
    let n = chars.len();
    let mut i: usize = 0;
    while i < n
        invariant
            i <= n,
            n == chars@.len(),
            chars@ == env_var@,
            forall|j: int| 0 <= j < i ==> chars@[j] != '=',
        decreases n - i,
    {
        if chars[i] == '=' {
            proof {
                lemma_first_eq_step(env_var@, 0, i as int);
                assert(first_eq(env_var@) == i);
            }
            if i == 0 || i + 1 == n {
                let mut msg = String::from_str("Cannot parse env var: ");
                msg.append(env_var);
                return Err(Error::new(msg.as_str()));
            }
            let name = env_var.substring_char(0, i).to_owned();
            let value = env_var.substring_char(i + 1, n).to_owned();
            proof {
                assert(name@ =~= env_var@.take(i as int));
                assert(value@ =~= env_var@.skip(i as int + 1));
            }
            return Ok((name, value));
        }
        i += 1;
    }
    proof {
        lemma_first_eq_step(env_var@, 0, n as int);
        assert(first_eq(env_var@) == n);
    }
    let mut msg = String::from_str("Cannot parse env var: ");
    msg.append(env_var);
    Err(Error::new(msg.as_str()))
}

/// The map described by a list of `NAME=VALUE` entries, a later entry for
/// the same name replacing an earlier one.
pub open spec fn env_map_of(ps: Seq<Seq<char>>) -> Map<Seq<char>, Seq<char>>
    decreases ps.len(),
{
    if ps.len() == 0 {
        Map::empty()
    } else {
        let last = ps.last();
        env_map_of(ps.drop_last()).insert(
            last.take(first_eq(last)),
            last.skip(first_eq(last) + 1),
        )
    }
}

/// Turns the orchestrator's `NAME=VALUE` entry list into a map, rejecting
/// the first malformed entry as a hard error.
pub fn env_map_from_pairs(pairs: &Vec<String>) -> (r: Result<EnvMap, Error>)
    ensures
        match r {
            Ok(m) => (forall|i: int|
                0 <= i < pairs.deep_view().len() ==> env_pair_ok(#[trigger] pairs.deep_view()[i]))
                && m@ == env_map_of(pairs.deep_view()),
            Err(e) => exists|i: int|
                {
                    &&& 0 <= i < pairs.deep_view().len()
                    &&& !env_pair_ok(#[trigger] pairs.deep_view()[i])
                    &&& (forall|j: int| 0 <= j < i ==> env_pair_ok(#[trigger] pairs.deep_view()[j]))
                    &&& e@ == msg_cannot_parse_env(pairs.deep_view()[i])
                },
        },
{
    let ghost ps = pairs.deep_view();
    let mut m = EnvMap::new();
    let n = pairs.len();
    let mut i: usize = 0;
    proof {
        assert(ps.take(0) =~= Seq::<Seq<char>>::empty());
    }
    while i < n
        invariant
            i <= n,
            n == ps.len(),
            ps == pairs.deep_view(),
            forall|j: int| 0 <= j < i ==> env_pair_ok(#[trigger] ps[j]),
            m@ == env_map_of(ps.take(i as int)),
        decreases n - i,
    {
        proof {
            assert(pairs.deep_view()[i as int] == pairs@[i as int]@);
        }
        match parse_env_pair(pairs[i].as_str()) {
            Ok(p) => {
                m.insert(p.0, p.1);
                proof {
                    assert(ps.take(i as int + 1).drop_last() =~= ps.take(i as int));
                    assert(ps.take(i as int + 1).last() == ps[i as int]);
                }
            },
            Err(e) => {
                return Err(e);
            },
        }
        i += 1;
    }
    proof {
        assert(ps.take(n as int) =~= ps);
    }
    Ok(m)
}

} // verus!
