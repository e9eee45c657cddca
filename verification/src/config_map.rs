//! `ConfigMap`: string keys to string values, kept in key order.
//!
//! Its contents are a finite `Map<Seq<char>, Seq<char>>`; walking it
//! (`keys`) gives the keys in increasing code-point order, the order in
//! which a `BTreeMap<String, String>` holds them.
use vstd::prelude::*;
use crate::text::{chars_of, views};

verus! {

/// Code-point lexicographic order on character sequences (the order of
/// `str`'s `Ord`).
pub open spec fn chars_lt(a: Seq<char>, b: Seq<char>) -> bool
    decreases a.len(),
{
    if a.len() == 0 {
        b.len() > 0
    } else if b.len() == 0 {
        false
    } else if a[0] != b[0] {
        a[0] < b[0]
    } else {
        chars_lt(a.drop_first(), b.drop_first())
    }
}

pub proof fn lemma_lt_irreflexive(a: Seq<char>)
    ensures
        !chars_lt(a, a),
    decreases a.len(),
{
    if a.len() > 0 {
        lemma_lt_irreflexive(a.drop_first());
    }
}

pub proof fn lemma_lt_transitive(a: Seq<char>, b: Seq<char>, c: Seq<char>)
    requires
        chars_lt(a, b),
        chars_lt(b, c),
    ensures
        chars_lt(a, c),
    decreases a.len(),
{
    if a.len() > 0 && b.len() > 0 && c.len() > 0 {
        if a[0] == b[0] && b[0] == c[0] {
            lemma_lt_transitive(a.drop_first(), b.drop_first(), c.drop_first());
        }
    }
}

pub proof fn lemma_lt_total(a: Seq<char>, b: Seq<char>)
    ensures
        a == b || chars_lt(a, b) || chars_lt(b, a),
    decreases a.len(),
{
    if a.len() > 0 && b.len() > 0 {
        if a[0] == b[0] {
            lemma_lt_total(a.drop_first(), b.drop_first());
            if a.drop_first() == b.drop_first() {
                assert(a =~= seq![a[0]] + a.drop_first());
                assert(b =~= seq![b[0]] + b.drop_first());
            }
        }
    } else if a.len() == 0 && b.len() == 0 {
        assert(a =~= b);
    }
}

proof fn lemma_lt_common_prefix(a: Seq<char>, b: Seq<char>, i: int)
    requires
        0 <= i <= a.len(),
        i <= b.len(),
        a.take(i) == b.take(i),
    ensures
        chars_lt(a, b) == chars_lt(a.skip(i), b.skip(i)),
    decreases i,
{
    if i > 0 {
        assert(a[0] == a.take(i)[0]);
        assert(b[0] == b.take(i)[0]);
        assert(a.drop_first().take(i - 1) == a.take(i).drop_first());
        assert(b.drop_first().take(i - 1) == b.take(i).drop_first());
        lemma_lt_common_prefix(a.drop_first(), b.drop_first(), i - 1);
        assert(a.drop_first().skip(i - 1) == a.skip(i));
        assert(b.drop_first().skip(i - 1) == b.skip(i));
    } else {
        assert(a.skip(0) == a);
        assert(b.skip(0) == b);
    }
}

/// `chars_lt` on executable character vectors.
pub fn chars_lt_exec(a: &Vec<char>, b: &Vec<char>) -> (r: bool)
    ensures
        r == chars_lt(a@, b@),
{
    let mut i: usize = 0;
    while i < a.len() && i < b.len() && a[i] == b[i]
        invariant
            i <= a.len(),
            i <= b.len(),
            a@.take(i as int) == b@.take(i as int),
        decreases a.len() - i,
    {
        assert(a@.take(i + 1) == a@.take(i as int).push(a@[i as int]));
        assert(b@.take(i + 1) == b@.take(i as int).push(b@[i as int]));
        i = i + 1;
    }
    proof {
        lemma_lt_common_prefix(a@, b@, i as int);
        if i < a.len() {
            assert(a@.skip(i as int)[0] == a@[i as int]);
        }
        if i < b.len() {
            assert(b@.skip(i as int)[0] == b@[i as int]);
        }
    }
    if i == a.len() {
        i < b.len()
    } else if i == b.len() {
        false
    } else {
        a[i] < b[i]
    }
}

/// Keys strictly increasing.
pub open spec fn sorted_pairs(ps: Seq<(Seq<char>, Seq<char>)>) -> bool {
    forall|i: int, j: int| 0 <= i < j < ps.len() ==> chars_lt(#[trigger] ps[i].0, #[trigger] ps[j].0)
}

/// Some pair has key `k`.
pub open spec fn has_key(ps: Seq<(Seq<char>, Seq<char>)>, k: Seq<char>) -> bool {
    exists|i: int| 0 <= i < ps.len() && #[trigger] ps[i].0 == k
}

/// A position holding key `k`, if some position does.
pub open spec fn key_pos(ps: Seq<(Seq<char>, Seq<char>)>, k: Seq<char>) -> int {
    choose|i: int| 0 <= i < ps.len() && #[trigger] ps[i].0 == k
}

/// The map the pairs describe.
pub open spec fn pairs_map(ps: Seq<(Seq<char>, Seq<char>)>) -> Map<Seq<char>, Seq<char>> {
    Map::new(|k: Seq<char>| has_key(ps, k), |k: Seq<char>| ps[key_pos(ps, k)].1)
}

/// In sorted pairs, a key names one position.
pub proof fn lemma_sorted_unique(ps: Seq<(Seq<char>, Seq<char>)>, i: int, j: int)
    requires
        sorted_pairs(ps),
        0 <= i < ps.len(),
        0 <= j < ps.len(),
        ps[i].0 == ps[j].0,
    ensures
        i == j,
{
    if i < j {
        lemma_lt_irreflexive(ps[i].0);
        assert(chars_lt(ps[i].0, ps[j].0));
    } else if j < i {
        lemma_lt_irreflexive(ps[i].0);
        assert(chars_lt(ps[j].0, ps[i].0));
    }
}

/// The value of a key in sorted pairs is the value at its position.
pub proof fn lemma_pairs_map_at(ps: Seq<(Seq<char>, Seq<char>)>, i: int)
    requires
        sorted_pairs(ps),
        0 <= i < ps.len(),
    ensures
        pairs_map(ps).contains_key(ps[i].0),
        pairs_map(ps)[ps[i].0] == ps[i].1,
{
    let k = ps[i].0;
    assert(has_key(ps, k));
    let j = key_pos(ps, k);
    lemma_sorted_unique(ps, i, j);
    assert(pairs_map(ps)[k] == ps[j].1);
}

/// The views of stored pairs.
pub open spec fn pairs_of(es: Seq<(String, String)>) -> Seq<(Seq<char>, Seq<char>)> {
    es.map_values(|e: (String, String)| (e.0@, e.1@))
}

/// Key-ordered map from string to string.
///
/// The pairs are kept in a vector sorted by key, with no key twice (the
/// type invariant), rather than in a `BTreeMap<String, String>`: vstd
/// specifies `BTreeMap`'s methods only for key types whose ordering it
/// knows to obey `Ord`'s laws (`obeys_cmp`), which it does not establish
/// for `String`, so over `String` keys those specifications give
/// nothing to prove the map's contents, or the order of its keys, with.
#[derive(Debug, PartialEq, Eq)]
pub struct ConfigMap {
    entries: Vec<(String, String)>,
}

impl ConfigMap {
    /// The pairs, in key order.
    pub closed spec fn pairs(&self) -> Seq<(Seq<char>, Seq<char>)> {
        pairs_of(self.entries@)
    }

    #[verifier::type_invariant]
    spec fn well_formed(&self) -> bool {
        sorted_pairs(self.pairs())
    }

    /// The keys, in increasing order.
    pub closed spec fn key_seq(&self) -> Seq<Seq<char>> {
        self.pairs().map_values(|p: (Seq<char>, Seq<char>)| p.0)
    }

    /// An empty map.
    pub fn new() -> (r: Self)
        ensures
            r@ == Map::<Seq<char>, Seq<char>>::empty(),
            r.key_seq() == Seq::<Seq<char>>::empty(),
    {
        let r = ConfigMap { entries: Vec::new() };
        assert(r.pairs() =~= seq![]);
        assert(r@ =~= Map::<Seq<char>, Seq<char>>::empty());
        assert(r.key_seq() =~= seq![]);
        r
    }

    /// The position of key `k`, if present.
    fn find(&self, k: &Vec<char>) -> (r: Option<usize>)
        ensures
            match r {
                Some(i) => i < self.pairs().len() && self.pairs()[i as int].0 == k@,
                None => !has_key(self.pairs(), k@),
            },
    {
        let mut i: usize = 0;
        while i < self.entries.len()
            invariant
                i <= self.entries@.len(),
                forall|j: int| 0 <= j < i ==> self.pairs()[j].0 != k@,
            decreases self.entries.len() - i,
        {
            let key = chars_of(self.entries[i].0.as_str());
            if crate::text::chars_eq(&key, k) {
                return Some(i);
            }
            i = i + 1;
        }
        None
    }

    /// The number of keys.
    pub fn len(&self) -> (r: usize)
        ensures
            r == self@.len(),
            r == self.key_seq().len(),
    {
        proof {
            use_type_invariant(self);
            self.lemma_dom_is_keys();
        }
        self.entries.len()
    }

    proof fn lemma_dom_is_keys(&self)
        requires
            sorted_pairs(self.pairs()),
        ensures
            self@.dom() == self.key_seq().to_set(),
            self@.dom().finite(),
            self@.len() == self.key_seq().len(),
            self.key_seq().no_duplicates(),
    {
        let ps = self.pairs();
        let ks = self.key_seq();
        assert forall|k: Seq<char>| self@.dom().contains(k) <==> ks.to_set().contains(k) by {
            if self@.dom().contains(k) {
                let i = choose|i: int| 0 <= i < ps.len() && #[trigger] ps[i].0 == k;
                assert(ks[i] == k);
            }
            if ks.to_set().contains(k) {
                let i = choose|i: int| 0 <= i < ks.len() && ks[i] == k;
                assert(ps[i].0 == k);
            }
        }
        assert(self@.dom() =~= ks.to_set());
        assert forall|i: int, j: int| 0 <= i < ks.len() && 0 <= j < ks.len() && i != j implies ks[i]
            != ks[j] by {
            if ks[i] == ks[j] {
                lemma_sorted_unique(ps, i, j);
            }
        }
        assert(ks.no_duplicates());
        ks.unique_seq_to_set();
    }

    /// Whether key `k` is present.
    pub fn contains_key(&self, k: &str) -> (r: bool)
        ensures
            r == self@.contains_key(k@),
    {
        let kc = chars_of(k);
        let f = self.find(&kc);
        f.is_some()
    }

    /// The value of key `k`, if present.
    pub fn get(&self, k: &str) -> (r: Option<&String>)
        ensures
            r is Some == self@.contains_key(k@),
            r matches Some(v) ==> v@ == self@[k@],
    {
        proof {
            use_type_invariant(self);
        }
        let kc = chars_of(k);
        match self.find(&kc) {
            Some(i) => {
                proof {
                    lemma_pairs_map_at(self.pairs(), i as int);
                }
                Some(&self.entries[i].1)
            },
            None => None,
        }
    }

    /// Sets the value of `k` to `v`, returning the value it replaced.
    pub fn insert(&mut self, k: String, v: String) -> (r: Option<String>)
        ensures
            final(self)@ == old(self)@.insert(k@, v@),
            r is Some == old(self)@.contains_key(k@),
            r matches Some(o) ==> o@ == old(self)@[k@],
    {
        proof {
            use_type_invariant(&*self);
        }
        let ghost ps = self.pairs();
        let kc = chars_of(k.as_str());
        let mut i: usize = 0;
        let mut stop = false;
        while i < self.entries.len() && !stop
            invariant
                ps == self.pairs(),
                sorted_pairs(ps),
                kc@ == k@,
                i <= ps.len(),
                stop ==> i < ps.len() && !chars_lt(ps[i as int].0, k@),
                forall|j: int| 0 <= j < i ==> chars_lt(#[trigger] ps[j].0, k@),
            decreases self.entries.len() - i + (if stop { 0int } else { 1int }),
        {
            let key = chars_of(self.entries[i].0.as_str());
            if !chars_lt_exec(&key, &kc) {
                stop = true;
            } else {
                i = i + 1;
            }
        }
        // everything before i is below k; at i (if any) k is not above
        let at_end = i == self.entries.len();
        let mut same = false;
        if !at_end {
            let key = chars_of(self.entries[i].0.as_str());
            same = crate::text::chars_eq(&key, &kc);
        }
        proof {
            assert forall|j: int| 0 <= j < i implies ps[j].0 != k@ by {
                lemma_lt_irreflexive(k@);
            }
            if !at_end && !same {
                // k is strictly below the key at i, and so below every later key
                lemma_lt_total(ps[i as int].0, k@);
                assert forall|j: int| i <= j < ps.len() implies chars_lt(k@, #[trigger] ps[j].0) by {
                    if j > i {
                        lemma_lt_transitive(k@, ps[i as int].0, ps[j].0);
                    }
                }
                assert forall|j: int| i <= j < ps.len() implies ps[j].0 != k@ by {
                    lemma_lt_irreflexive(k@);
                }
            }
            if at_end {
                assert(!has_key(ps, k@));
            }
        }
        let ghost old_map = pairs_map(ps);
        let mut es: Vec<(String, String)> = Vec::new();
        std::mem::swap(&mut es, &mut self.entries);
        if same {
            let old_entry = es.remove(i);
            es.insert(i, (k, v));
            proof {
                let nps = pairs_of(es@);
                assert(nps =~= ps.update(i as int, (k@, v@)));
                assert(sorted_pairs(nps)) by {
                    assert forall|a: int, b: int| 0 <= a < b < nps.len() implies chars_lt(
                        #[trigger] nps[a].0,
                        #[trigger] nps[b].0,
                    ) by {
                        assert(nps[a].0 == ps[a].0);
                        assert(nps[b].0 == ps[b].0);
                    }
                }
            }
            self.entries = es;
            proof {
                let nps = self.pairs();
                assert(nps =~= ps.update(i as int, (k@, v@)));
                assert(sorted_pairs(nps)) by {
                    assert forall|a: int, b: int| 0 <= a < b < nps.len() implies chars_lt(
                        #[trigger] nps[a].0,
                        #[trigger] nps[b].0,
                    ) by {
                        assert(nps[a].0 == ps[a].0);
                        assert(nps[b].0 == ps[b].0);
                    }
                }
                lemma_pairs_map_at(ps, i as int);
                assert(pairs_map(nps) =~= old_map.insert(k@, v@)) by {
                    assert forall|key: Seq<char>| #[trigger] pairs_map(nps).contains_key(key)
                        == old_map.insert(k@, v@).contains_key(key) by {
                        if has_key(nps, key) {
                            let a = choose|a: int| 0 <= a < nps.len() && #[trigger] nps[a].0 == key;
                            assert(ps[a].0 == key);
                        }
                        if has_key(ps, key) {
                            let a = choose|a: int| 0 <= a < ps.len() && #[trigger] ps[a].0 == key;
                            assert(nps[a].0 == key);
                        }
                    }
                    assert forall|key: Seq<char>| #[trigger] pairs_map(nps).contains_key(key) implies pairs_map(nps)[key] == old_map.insert(k@, v@)[key] by {
                        let a = choose|a: int| 0 <= a < nps.len() && #[trigger] nps[a].0 == key;
                        lemma_pairs_map_at(nps, a);
                        if a != i {
                            lemma_pairs_map_at(ps, a);
                            if key == k@ {
                                lemma_sorted_unique(ps, a, i as int);
                            }
                        }
                    }
                }
            }
            Some(old_entry.1)
        } else {
            es.insert(i, (k, v));
            proof {
                let nps = pairs_of(es@);
                assert(nps =~= ps.insert(i as int, (k@, v@)));
                assert(sorted_pairs(nps)) by {
                    assert forall|a: int, b: int| 0 <= a < b < nps.len() implies chars_lt(
                        #[trigger] nps[a].0,
                        #[trigger] nps[b].0,
                    ) by {
                        if b < i {
                            assert(nps[a].0 == ps[a].0 && nps[b].0 == ps[b].0);
                        } else if b == i {
                            assert(nps[a].0 == ps[a].0);
                        } else if a < i {
                            assert(nps[a].0 == ps[a].0 && nps[b].0 == ps[b - 1].0);
                            lemma_lt_transitive(ps[a].0, k@, ps[b - 1].0);
                        } else if a == i {
                            assert(nps[b].0 == ps[b - 1].0);
                        } else {
                            assert(nps[a].0 == ps[a - 1].0 && nps[b].0 == ps[b - 1].0);
                        }
                    }
                }
            }
            self.entries = es;
            proof {
                let nps = self.pairs();
                assert(nps =~= ps.insert(i as int, (k@, v@)));
                assert(!has_key(ps, k@));
                assert(pairs_map(nps) =~= old_map.insert(k@, v@)) by {
                    assert forall|key: Seq<char>| #[trigger] pairs_map(nps).contains_key(key)
                        == old_map.insert(k@, v@).contains_key(key) by {
                        if has_key(nps, key) {
                            let a = choose|a: int| 0 <= a < nps.len() && #[trigger] nps[a].0 == key;
                            if a < i {
                                assert(ps[a].0 == key);
                            } else if a > i {
                                assert(ps[a - 1].0 == key);
                            }
                        }
                        if has_key(ps, key) {
                            let a = choose|a: int| 0 <= a < ps.len() && #[trigger] ps[a].0 == key;
                            if a < i {
                                assert(nps[a].0 == key);
                            } else {
                                assert(nps[a + 1].0 == key);
                            }
                        }
                        if key == k@ {
                            assert(nps[i as int].0 == key);
                        }
                    }
                    assert forall|key: Seq<char>| #[trigger] pairs_map(nps).contains_key(key) implies pairs_map(nps)[key] == old_map.insert(k@, v@)[key] by {
                        let a = choose|a: int| 0 <= a < nps.len() && #[trigger] nps[a].0 == key;
                        lemma_pairs_map_at(nps, a);
                        if a < i {
                            lemma_pairs_map_at(ps, a);
                        } else if a > i {
                            lemma_pairs_map_at(ps, a - 1);
                        }
                    }
                }
            }
            None
        }
    }

    /// The keys, in increasing order.
    pub fn keys(&self) -> (r: Vec<String>)
        ensures
            views(r@) == self.key_seq(),
            views(r@).no_duplicates(),
            forall|k: Seq<char>| self@.contains_key(k) <==> views(r@).contains(k),
            forall|i: int, j: int|
                0 <= i < j < r@.len() ==> chars_lt(#[trigger] r@[i]@, #[trigger] r@[j]@),
    {
        proof {
            use_type_invariant(self);
            self.lemma_dom_is_keys();
        }
        let mut out: Vec<String> = Vec::new();
        let mut i: usize = 0;
        while i < self.entries.len()
            invariant
                i <= self.entries@.len(),
                views(out@) == self.key_seq().take(i as int),
            decreases self.entries.len() - i,
        {
            let ghost prev = out@;
            let k = self.entries[i].0.clone();
            out.push(k);
            assert(out@ == prev.push(k));
            assert(self.key_seq()[i as int] == self.entries@[i as int].0@);
            assert(views(out@) =~= views(prev).push(k@));
            i = i + 1;
            assert(views(out@) =~= self.key_seq().take(i as int));
        }
        assert(self.key_seq().take(i as int) =~= self.key_seq());
        proof {
            assert forall|k: Seq<char>| self@.contains_key(k) <==> views(out@).contains(k) by {
                assert(self@.dom().contains(k) <==> self.key_seq().to_set().contains(k));
            }
            assert forall|a: int, b: int| 0 <= a < b < out@.len() implies chars_lt(
                #[trigger] out@[a]@,
                #[trigger] out@[b]@,
            ) by {
                assert(out@[a]@ == views(out@)[a] && views(out@)[a] == self.pairs()[a].0);
                assert(out@[b]@ == views(out@)[b] && views(out@)[b] == self.pairs()[b].0);
            }
        }
        out
    }

    /// A copy of the map.
    pub fn copy(&self) -> (r: Self)
        ensures
            r@ == self@,
            r.key_seq() == self.key_seq(),
    {
        proof {
            use_type_invariant(self);
        }
        let mut out: Vec<(String, String)> = Vec::new();
        let mut i: usize = 0;
        while i < self.entries.len()
            invariant
                i <= self.entries@.len(),
                out@.map_values(|e: (String, String)| (e.0@, e.1@)) == self.pairs().take(i as int),
            decreases self.entries.len() - i,
        {
            let k = self.entries[i].0.clone();
            let v = self.entries[i].1.clone();
            let ghost prev = out@;
            out.push((k, v));
            assert(out@ == prev.push((k, v)));
            assert(self.pairs()[i as int] == (self.entries@[i as int].0@, self.entries@[i as int].1@));
            assert(out@.map_values(|e: (String, String)| (e.0@, e.1@)) =~= prev.map_values(|e: (String, String)| (e.0@, e.1@)).push((k@, v@)));
            i = i + 1;
            assert(out@.map_values(|e: (String, String)| (e.0@, e.1@)) =~= self.pairs().take(i as int));
        }
        assert(self.pairs().take(i as int) =~= self.pairs());
        let r = ConfigMap { entries: out };
        assert(r.pairs() == self.pairs());
        r
    }
}

impl View for ConfigMap {
    type V = Map<Seq<char>, Seq<char>>;

    closed spec fn view(&self) -> Map<Seq<char>, Seq<char>> {
        pairs_map(self.pairs())
    }
}

impl Clone for ConfigMap {
    fn clone(&self) -> (r: Self)
        ensures
            r@ == self@,
    {
        self.copy()
    }
}

impl Default for ConfigMap {
    fn default() -> (r: Self)
        ensures
            r@ == Map::<Seq<char>, Seq<char>>::empty(),
    {
        ConfigMap::new()
    }
}

} // verus!
