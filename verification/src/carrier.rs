//! The trace-context carrier: a bidirectional adapter between a flat
//! string-keyed header map and the ambient distributed-trace context.
//!
//! `HeaderInjector` collects the key/value pairs that the ambient
//! propagator writes when a message is published; `HeaderExtractor` offers
//! them back to the propagator on the consuming side. Both are pure maps:
//! malformed or missing headers degrade to an absent entry, never a
//! failure, so an empty map extracts to an unlinked default context.

use vstd::prelude::*;

verus! {

/// Whether some pair in `ps` carries the key `k`.
pub open spec fn has_key(ps: Seq<(String, String)>, k: Seq<char>) -> bool {
    exists|i: int| 0 <= i < ps.len() && ps[i].0@ == k
}

/// The index of the pair carrying `k` (meaningful under `unique_keys`).
pub open spec fn key_idx(ps: Seq<(String, String)>, k: Seq<char>) -> int {
    choose|i: int| 0 <= i < ps.len() && ps[i].0@ == k
}

/// The value recorded under `k` (meaningful when `has_key`).
pub open spec fn val_of(ps: Seq<(String, String)>, k: Seq<char>) -> Seq<char> {
    ps[key_idx(ps, k)].1@
}

/// No two pairs carry the same key.
pub open spec fn unique_keys(ps: Seq<(String, String)>) -> bool {
    forall|i: int, j: int| 0 <= i < j < ps.len() ==> ps[i].0@ != ps[j].0@
}

/// Under uniqueness, a pair found at `i` is the pair of its key.
proof fn lemma_key_at(ps: Seq<(String, String)>, k: Seq<char>, i: int)
    requires
        unique_keys(ps),
        0 <= i < ps.len(),
        ps[i].0@ == k,
    ensures
        has_key(ps, k),
        key_idx(ps, k) == i,
        val_of(ps, k) == ps[i].1@,
{
    assert(has_key(ps, k));
    let j = key_idx(ps, k);
    assert(0 <= j < ps.len() && ps[j].0@ == k);
    if i < j {
        assert(ps[i].0@ != ps[j].0@);
    } else if j < i {
        assert(ps[j].0@ != ps[i].0@);
    }
}

/// `out` holds exactly the keys of `inp`, each with a value that `inp`
/// carries for that key. When `inp` has a key more than once, which of
/// its values survives is left open, as an extractor built from a header
/// table walked in unspecified order must.
pub open spec fn extraction_of(out: Seq<(String, String)>, inp: Seq<(String, String)>) -> bool {
    &&& unique_keys(out)
    &&& forall|k: Seq<char>| has_key(out, k) == has_key(inp, k)
    &&& forall|k: Seq<char>| has_key(out, k) ==> exists|i: int|
        0 <= i < inp.len() && inp[i].0@ == k && inp[i].1@ == val_of(out, k)
}

/// Carrier that the ambient propagator fills with trace headers while a
/// message is being published.
pub struct HeaderInjector {
    pairs: Vec<(String, String)>,
}

impl View for HeaderInjector {
    type V = Seq<(String, String)>;

    closed spec fn view(&self) -> Seq<(String, String)> {
        self.pairs@
    }
}

impl HeaderInjector {
    /// Each header key is recorded once.
    pub open spec fn wf(self) -> bool {
        unique_keys(self@)
    }

    /// An empty header map.
    pub fn new() -> (r: Self)
        ensures
            r.wf(),
            r@.len() == 0,
    {
        HeaderInjector { pairs: Vec::new() }
    }

    /// Records `value` under `key`, replacing any earlier value for the
    /// same key and touching no other entry.
    pub fn set(&mut self, key: &str, value: &str)
        requires
            old(self).wf(),
        ensures
            final(self).wf(),
            has_key(final(self)@, key@),
            val_of(final(self)@, key@) == value@,
            forall|k: Seq<char>| k != key@ ==> has_key(final(self)@, k) == has_key(old(self)@, k),
            forall|k: Seq<char>| k != key@ && has_key(old(self)@, k)
                ==> val_of(final(self)@, k) == val_of(old(self)@, k),
    {
        let ghost ps0 = self.pairs@;
        let n = self.pairs.len();
        let mut i: usize = 0;
        while i < n
            invariant
                n == self.pairs@.len(),
                self.pairs@ == ps0,
                ps0 == old(self)@,
                unique_keys(ps0),
                0 <= i <= n,
                forall|k: int| 0 <= k < i ==> ps0[k].0@ != key@,
            decreases n - i,
        {
            if crate::strutil::str_eq(self.pairs[i].0.as_str(), key) {
                proof {
                    lemma_key_at(ps0, key@, i as int);
                }
                let upd = (key.to_owned(), value.to_owned());
                self.pairs[i] = upd;
                proof {
                    let ps1 = self.pairs@;
                    assert(ps1 =~= ps0.update(i as int, ps1[i as int]));
                    assert(unique_keys(ps1));
                    lemma_key_at(ps1, key@, i as int);
                    assert forall|k: Seq<char>| k != key@ implies has_key(ps1, k)
                        == has_key(ps0, k) && (has_key(ps0, k) ==> val_of(ps1, k)
                        == val_of(ps0, k)) by {
                        if has_key(ps0, k) {
                            let m = key_idx(ps0, k);
                            assert(ps1[m] == ps0[m]);
                            lemma_key_at(ps1, k, m);
                        }
                        if has_key(ps1, k) {
                            let m = key_idx(ps1, k);
                            assert(ps0[m] == ps1[m]);
                            lemma_key_at(ps0, k, m);
                        }
                    }
                }
                return;
            }
            i += 1;
        }
        let pair = (key.to_owned(), value.to_owned());
        self.pairs.push(pair);
        proof {
            let ps1 = self.pairs@;
            let last = ps0.len() as int;
            assert(ps1[last].0@ == key@);
            assert(unique_keys(ps1));
            lemma_key_at(ps1, key@, last);
            assert forall|k: Seq<char>| k != key@ implies has_key(ps1, k)
                == has_key(ps0, k) && (has_key(ps0, k) ==> val_of(ps1, k)
                == val_of(ps0, k)) by {
                if has_key(ps0, k) {
                    let m = key_idx(ps0, k);
                    assert(ps1[m] == ps0[m]);
                    lemma_key_at(ps1, k, m);
                }
                if has_key(ps1, k) {
                    let m = key_idx(ps1, k);
                    assert(m < ps0.len());
                    lemma_key_at(ps0, k, m);
                }
            }
        }
    }

    /// The recorded header pairs, for attaching to an outbound message.
    pub fn pairs(&self) -> (r: &Vec<(String, String)>)
        ensures
            r@ == self@,
    {
        &self.pairs
    }
}

/// Carrier that offers received message headers to the ambient
/// propagator on the consuming side.
pub struct HeaderExtractor {
    pairs: Vec<(String, String)>,
}

impl View for HeaderExtractor {
    type V = Seq<(String, String)>;

    closed spec fn view(&self) -> Seq<(String, String)> {
        self.pairs@
    }
}

impl HeaderExtractor {
    /// Each header key is recorded once.
    pub open spec fn wf(self) -> bool {
        unique_keys(self@)
    }

    /// Builds an extractor from received header pairs, keeping one value
    /// per key. A message without headers yields an empty extractor.
    pub fn from_pairs(input: Vec<(String, String)>) -> (r: Self)
        ensures
            r.wf(),
            extraction_of(r@, input@),
            input@.len() == 0 ==> r@.len() == 0,
    {
        let ghost inp = input@;
        let mut pairs: Vec<(String, String)> = Vec::new();
        let mut i: usize = 0;
        while i < input.len()
            invariant
                0 <= i <= input@.len(),
                inp == input@,
                unique_keys(pairs@),
                pairs@.len() <= i,
                forall|k: Seq<char>| has_key(pairs@, k) ==> exists|m: int|
                    0 <= m < i && inp[m].0@ == k && inp[m].1@ == val_of(pairs@, k),
                forall|m: int| 0 <= m < i ==> has_key(pairs@, inp[m].0@),
            decreases input@.len() - i,
        {
            let ghost ps0 = pairs@;
            let key_new = {
                let mut seen = false;
                let mut j: usize = 0;
                while j < pairs.len()
                    invariant
                        0 <= j <= pairs@.len(),
                        pairs@ == ps0,
                        i < input@.len(),
                        inp == input@,
                        seen == exists|m: int| 0 <= m < j && ps0[m].0@ == inp[i as int].0@,
                    decreases pairs@.len() - j,
                {
                    if crate::strutil::str_eq(pairs[j].0.as_str(), input[i].0.as_str()) {
                        seen = true;
                    }
                    j += 1;
                }
                !seen
            };
            if key_new {
                let pair = (input[i].0.clone(), input[i].1.clone());
                pairs.push(pair);
                proof {
                    let ps1 = pairs@;
                    let last = ps0.len() as int;
                    assert(ps1[last].0@ == inp[i as int].0@);
                    assert(ps1[last].1@ == inp[i as int].1@);
                    assert(unique_keys(ps1));
                    lemma_key_at(ps1, inp[i as int].0@, last);
                    assert forall|k: Seq<char>| has_key(ps1, k) implies exists|m: int|
                        0 <= m < i + 1 && inp[m].0@ == k && inp[m].1@ == val_of(ps1, k) by {
                        let p = key_idx(ps1, k);
                        if p < last {
                            lemma_key_at(ps0, k, p);
                            assert(has_key(ps0, k));
                            let m = choose|m: int| 0 <= m < i && inp[m].0@ == k
                                && inp[m].1@ == val_of(ps0, k);
                            lemma_key_at(ps1, k, p);
                            assert(ps1[p].1@ == ps0[p].1@);
                            assert(val_of(ps1, k) == val_of(ps0, k));
                        } else {
                            assert(inp[i as int].0@ == k && inp[i as int].1@ == val_of(ps1, k));
                        }
                    }
                    assert forall|m: int| 0 <= m < i + 1 implies has_key(ps1, inp[m].0@) by {
                        if m < i {
                            assert(has_key(ps0, inp[m].0@));
                            let p = key_idx(ps0, inp[m].0@);
                            lemma_key_at(ps1, inp[m].0@, p);
                        }
                    }
                }
            } else {
                proof {
                    let m0 = choose|m: int| 0 <= m < pairs@.len()
                        && pairs@[m].0@ == inp[i as int].0@;
                    lemma_key_at(pairs@, inp[i as int].0@, m0);
                }
            }
            i += 1;
        }
        proof {
            assert forall|k: Seq<char>| has_key(pairs@, k) == has_key(inp, k) by {
                if has_key(pairs@, k) {
                    let m = choose|m: int| 0 <= m < inp.len() && inp[m].0@ == k
                        && inp[m].1@ == val_of(pairs@, k);
                    assert(has_key(inp, k));
                }
                if has_key(inp, k) {
                    let m = key_idx(inp, k);
                    assert(has_key(pairs@, inp[m].0@));
                }
            }
        }
        HeaderExtractor { pairs }
    }

    /// The value stored under `key`, or nothing when the key is absent.
    pub fn get(&self, key: &str) -> (r: Option<String>)
        requires
            self.wf(),
        ensures
            r is Some <==> has_key(self@, key@),
            r matches Some(v) ==> v@ == val_of(self@, key@),
    {
        let n = self.pairs.len();
        let mut i: usize = 0;
        while i < n
            invariant
                n == self.pairs@.len(),
                self.wf(),
                0 <= i <= n,
                forall|k: int| 0 <= k < i ==> self.pairs@[k].0@ != key@,
            decreases n - i,
        {
            if crate::strutil::str_eq(self.pairs[i].0.as_str(), key) {
                proof {
                    lemma_key_at(self.pairs@, key@, i as int);
                }
                return Some(self.pairs[i].1.clone());
            }
            i += 1;
        }
        None
    }

    /// All header keys, in the carrier's internal order.
    pub fn keys(&self) -> (r: Vec<String>)
        ensures
            r@.len() == self@.len(),
            forall|i: int| 0 <= i < r@.len() ==> r@[i]@ == self@[i].0@,
    {
        let mut r: Vec<String> = Vec::new();
        let mut i: usize = 0;
        while i < self.pairs.len()
            invariant
                0 <= i <= self.pairs@.len(),
                r@.len() == i,
                forall|k: int| 0 <= k < i ==> r@[k]@ == self.pairs@[k].0@,
            decreases self.pairs@.len() - i,
        {
            r.push(self.pairs[i].0.clone());
            i += 1;
        }
        r
    }
}

/// The carrier round trip: an extractor built from an injector's pairs
/// offers exactly the injected headers — same keys, same values — and an
/// empty injection extracts to an empty map, from which the ambient
/// propagator derives an unlinked default context.
pub proof fn lemma_carrier_round_trip(
    inj: Seq<(String, String)>,
    ext: Seq<(String, String)>,
    k: Seq<char>,
)
    requires
        unique_keys(inj),
        extraction_of(ext, inj),
    ensures
        has_key(ext, k) == has_key(inj, k),
        has_key(inj, k) ==> val_of(ext, k) == val_of(inj, k),
        inj.len() == 0 ==> !has_key(ext, k),
{
    if has_key(inj, k) {
        assert(has_key(ext, k));
        let i = choose|i: int| 0 <= i < inj.len() && inj[i].0@ == k
            && inj[i].1@ == val_of(ext, k);
        lemma_key_at(inj, k, i);
    }
}

/// Clones a list of header pairs, preserving it exactly.
pub fn clone_pairs(v: &Vec<(String, String)>) -> (r: Vec<(String, String)>)
    ensures
        r@ == v@,
{
    let mut r: Vec<(String, String)> = Vec::new();
    let mut i: usize = 0;
    while i < v.len()
        invariant
            0 <= i <= v@.len(),
            r@ == v@.subrange(0, i as int),
        decreases v@.len() - i,
    {
        let pair = (v[i].0.clone(), v[i].1.clone());
        r.push(pair);
        proof {
            assert(r@ =~= v@.subrange(0, i + 1));
        }
        i += 1;
    }
    proof {
        assert(v@.subrange(0, v@.len() as int) =~= v@);
    }
    r
}

} // verus!
