//! The aggregation counter store: one record per short code, holding the
//! access count and the last access time, plus the code-set index that
//! backs the paginated, count-sorted listing.
//!
//! `CounterStore` is the store's state model: every operation's contract
//! states the atomic effect on the per-code records. The windowing and
//! sorting steps of `list` are exposed on their own so that a store backed
//! by an external key/value service can reuse them on fetched records.

use vstd::prelude::*;
use vstd::string::StringExecFns;
use crate::errors::AppError;
use crate::strutil::str_eq;

verus! {

/// The aggregate record of one short code: its access counter and the
/// time of the last recorded access, as an RFC 3339 text timestamp.
#[derive(Debug)]
pub struct Analytics {
    pub code: String,
    pub access_count: i64,
    pub last_accessed_at: Option<String>,
}

impl Clone for Analytics {
    fn clone(&self) -> (res: Self)
        ensures
            res == *self,
    {
        Analytics {
            code: self.code.clone(),
            access_count: self.access_count,
            last_accessed_at: match &self.last_accessed_at {
                Some(s) => Some(s.clone()),
                None => None,
            },
        }
    }
}

/// Whether some record in `rs` carries the code `c`.
pub open spec fn has_code(rs: Seq<Analytics>, c: Seq<char>) -> bool {
    exists|i: int| 0 <= i < rs.len() && rs[i].code@ == c
}

/// The index of the record carrying `c` (meaningful under `unique_codes`).
pub open spec fn idx_of(rs: Seq<Analytics>, c: Seq<char>) -> int {
    choose|i: int| 0 <= i < rs.len() && rs[i].code@ == c
}

/// The record carrying `c` (meaningful when `has_code`).
pub open spec fn rec_of(rs: Seq<Analytics>, c: Seq<char>) -> Analytics {
    rs[idx_of(rs, c)]
}

/// The access count recorded for `c`; zero when the code was never seen.
pub open spec fn count_of(rs: Seq<Analytics>, c: Seq<char>) -> int {
    if has_code(rs, c) {
        rec_of(rs, c).access_count as int
    } else {
        0
    }
}

/// The last access time recorded for `c`, if any.
pub open spec fn last_of(rs: Seq<Analytics>, c: Seq<char>) -> Option<Seq<char>> {
    if has_code(rs, c) {
        match rec_of(rs, c).last_accessed_at {
            Some(s) => Some(s@),
            None => None,
        }
    } else {
        None
    }
}

/// No two records carry the same code.
pub open spec fn unique_codes(rs: Seq<Analytics>) -> bool {
    forall|i: int, j: int| 0 <= i < j < rs.len() ==> rs[i].code@ != rs[j].code@
}

/// Under uniqueness, a record found at `i` is the record of its code.
proof fn lemma_at(rs: Seq<Analytics>, c: Seq<char>, i: int)
    requires
        unique_codes(rs),
        0 <= i < rs.len(),
        rs[i].code@ == c,
    ensures
        has_code(rs, c),
        idx_of(rs, c) == i,
        rec_of(rs, c) == rs[i],
{
    assert(has_code(rs, c));
    let j = idx_of(rs, c);
    assert(0 <= j < rs.len() && rs[j].code@ == c);
    if i < j {
        assert(rs[i].code@ != rs[j].code@);
    } else if j < i {
        assert(rs[j].code@ != rs[i].code@);
    }
}

/// Descending order by access count.
pub open spec fn sorted_desc(s: Seq<Analytics>) -> bool {
    forall|i: int, j: int|
        0 <= i <= j < s.len() ==> s[i].access_count >= s[j].access_count
}

/// The lower bound of the `offset`/`limit` window over `len` records.
pub open spec fn win_lo(len: int, offset: int) -> int {
    if offset > len {
        len
    } else {
        offset
    }
}

/// The upper bound of the `offset`/`limit` window over `len` records.
pub open spec fn win_hi(len: int, limit: int, offset: int) -> int {
    if offset + limit > len {
        len
    } else {
        offset + limit
    }
}

/// Swapping two adjacent elements of a sequence keeps its multiset, and
/// removing an element and reinserting it one place later is that swap.
proof fn lemma_adjacent_swap_multiset(s: Seq<Analytics>, i: int)
    requires
        0 <= i,
        i + 1 < s.len(),
    ensures
        s.remove(i).insert(i + 1, s[i]) =~= s.update(i, s[i + 1]).update(i + 1, s[i]),
        s.update(i, s[i + 1]).update(i + 1, s[i]).to_multiset() =~= s.to_multiset(),
{
    broadcast use vstd::seq_lib::group_to_multiset_ensures;

    let t = s.update(i, s[i + 1]).update(i + 1, s[i]);
    assert(s.remove(i).insert(i + 1, s[i]) =~= t);
    // Removing the swapped pair's later position from each side leaves the
    // same sequence, so the two multisets differ at most in one element
    // that both contain.
    assert(t.remove(i + 1) =~= s.remove(i));
    assert(t.remove(i + 1).to_multiset() =~= t.to_multiset().remove(t[i + 1]));
    assert(s.remove(i).to_multiset() =~= s.to_multiset().remove(s[i]));
    assert(t[i + 1] == s[i]);
    assert(s.contains(s[i]));
    assert(t.contains(s[i])) by {
        assert(t[i + 1] == s[i]);
    }
    assert(s.to_multiset().count(s[i]) > 0);
    assert(t.to_multiset().count(s[i]) > 0);
    assert forall|x: Analytics| t.to_multiset().count(x) == s.to_multiset().count(x) by {
        assert(t.to_multiset().remove(s[i]).count(x) == s.to_multiset().remove(s[i]).count(x));
    }
    assert(t.to_multiset() =~= s.to_multiset());
}

/// Sorts records by descending access count, keeping the multiset of
/// records. Equal counts are left in an unspecified relative order.
pub fn sort_by_count_desc(v: &mut Vec<Analytics>)
    ensures
        final(v)@.to_multiset() == old(v)@.to_multiset(),
        final(v)@.len() == old(v)@.len(),
        sorted_desc(final(v)@),
{
    let ghost orig = v@;
    let mut i: usize = 1;
    if v.len() < 2 {
        return;
    }
    while i < v.len()
        invariant
            1 <= i <= v@.len(),
            v@.len() == orig.len(),
            v@.to_multiset() == orig.to_multiset(),
            sorted_desc(v@.subrange(0, i as int)),
        decreases v@.len() - i,
    {
        let mut j: usize = i;
        while j > 0 && v[j - 1].access_count < v[j].access_count
            invariant
                0 <= j <= i < v@.len(),
                v@.len() == orig.len(),
                v@.to_multiset() == orig.to_multiset(),
                sorted_desc(v@.subrange(0, j as int)),
                sorted_desc(v@.subrange(j as int, i + 1)),
                forall|a: int, b: int|
                    0 <= a < j && j + 1 <= b < i + 1 ==> v@[a].access_count >= v@[b].access_count,
            decreases j,
    {
            let ghost before = v@;
            let moved = v.remove(j - 1);
            v.insert(j, moved);
            proof {
                lemma_adjacent_swap_multiset(before, j - 1);
                assert(v@ =~= before.remove(j - 1).insert(j as int, before[j - 1]));
                assert(v@ =~= before.update(j - 1, before[j as int]).update(j as int, before[j - 1]));
                assert(v@.to_multiset() == orig.to_multiset());
                let jm = j - 1;
                assert forall|a: int, b: int| jm <= a <= b < i + 1
                    implies v@[a].access_count >= v@[b].access_count by {
                    // The moved pair is in order now; the rest was sorted.
                    assert(v@[jm] == before[j as int]);
                    assert(v@[j as int] == before[jm]);
                    if a == jm && b == jm {
                    } else if a == jm {
                        if b == j {
                            assert(before[j as int].access_count > before[jm].access_count);
                        } else {
                            assert(before.subrange(j as int, i + 1)[0] == before[j as int]);
                            assert(before.subrange(j as int, i + 1)[b - j] == before[b]);
                        }
                    } else if a == j {
                        if b > j {
                            // before[jm] dominates [j + 1, i + 1) by the cross fact
                            assert(before[jm].access_count >= before[b].access_count);
                        }
                    } else {
                        assert(before.subrange(j as int, i + 1)[a - j] == before[a]);
                        assert(before.subrange(j as int, i + 1)[b - j] == before[b]);
                    }
                }
                assert(sorted_desc(v@.subrange(jm, i + 1))) by {
                    assert(forall|a: int, b: int| 0 <= a <= b < i + 1 - jm
                        ==> #[trigger] v@.subrange(jm, i + 1)[a].access_count
                            >= #[trigger] v@.subrange(jm, i + 1)[b].access_count);
                }
                assert(sorted_desc(v@.subrange(0, jm))) by {
                    assert(forall|k: int| 0 <= k < jm ==> v@[k] == before[k]);
                    assert(forall|a: int, b: int| 0 <= a <= b < jm
                        ==> #[trigger] v@.subrange(0, jm)[a].access_count
                            >= #[trigger] v@.subrange(0, jm)[b].access_count);
                }
                assert forall|a: int, b: int| 0 <= a < jm && jm + 1 <= b < i + 1
                    implies v@[a].access_count >= v@[b].access_count by {
                    assert(v@[a] == before[a]);
                    if b == j {
                        // the element that moved down: dominated by the sorted prefix
                        assert(before.subrange(0, j as int)[a] == before[a]);
                        assert(before.subrange(0, j as int)[jm] == before[jm]);
                        assert(before[a].access_count >= before[jm].access_count);
                    } else {
                        assert(v@[b] == before[b]);
                        assert(before[a].access_count >= before[b].access_count);
                    }
                }
            }
            j -= 1;
        }
        proof {
            assert forall|a: int, b: int| 0 <= a <= b < i + 1
                implies v@[a].access_count >= v@[b].access_count by {
                if b < j {
                    assert(v@.subrange(0, j as int)[a] == v@[a]);
                    assert(v@.subrange(0, j as int)[b] == v@[b]);
                } else if a >= j {
                    assert(v@.subrange(j as int, i + 1)[a - j] == v@[a]);
                    assert(v@.subrange(j as int, i + 1)[b - j] == v@[b]);
                } else {
                    // a < j <= b, so j > 0 and the loop exit gives the boundary
                    assert(v@[j - 1].access_count >= v@[j as int].access_count);
                    assert(v@.subrange(0, j as int)[a] == v@[a]);
                    assert(v@.subrange(0, j as int)[j - 1] == v@[j - 1]);
                    assert(v@[a].access_count >= v@[j - 1].access_count);
                    if b == j {
                    } else {
                        assert(v@[a].access_count >= v@[b].access_count);
                    }
                }
            }
            assert(sorted_desc(v@.subrange(0, i + 1))) by {
                assert(forall|a: int, b: int| 0 <= a <= b < i + 1
                    ==> #[trigger] v@.subrange(0, i + 1)[a].access_count
                        >= #[trigger] v@.subrange(0, i + 1)[b].access_count);
            }
        }
        i += 1;
    }
    proof {
        assert(v@.subrange(0, v@.len() as int) =~= v@);
    }
}

/// Clones the `offset`/`limit` window of a code listing: the original
/// sequence with the first `offset` entries skipped and at most `limit`
/// entries taken.
pub fn window_codes(codes: &Vec<String>, limit: usize, offset: usize) -> (r: Vec<String>)
    ensures
        r@ == codes@.subrange(
            win_lo(codes@.len() as int, offset as int),
            win_hi(codes@.len() as int, limit as int, offset as int),
        ),
{
    let len = codes.len();
    let lo = if offset > len {
        len
    } else {
        offset
    };
    let hi = if limit > len - lo {
        len
    } else {
        lo + limit
    };
    let mut r: Vec<String> = Vec::new();
    let mut k: usize = lo;
    while k < hi
        invariant
            lo <= k <= hi <= codes@.len(),
            r@ == codes@.subrange(lo as int, k as int),
        decreases hi - k,
    {
        r.push(codes[k].clone());
        proof {
            assert(r@ =~= codes@.subrange(lo as int, k + 1));
        }
        k += 1;
    }
    proof {
        assert(win_lo(codes@.len() as int, offset as int) == lo as int);
        assert(win_hi(codes@.len() as int, limit as int, offset as int) == hi as int);
    }
    r
}

/// The counter-per-code store. Records are created lazily by the first
/// increment for a code; the sequence of records doubles as the code-set
/// index, so a code is indexed if and only if its record exists.
pub struct CounterStore {
    entries: Vec<Analytics>,
}

impl View for CounterStore {
    type V = Seq<Analytics>;

    closed spec fn view(&self) -> Seq<Analytics> {
        self.entries@
    }
}

impl CounterStore {
    /// Every code names at most one record.
    pub open spec fn wf(self) -> bool {
        unique_codes(self@)
    }

    /// An empty store: no code has ever been recorded.
    pub fn new() -> (s: Self)
        ensures
            s.wf(),
            s@.len() == 0,
    {
        CounterStore { entries: Vec::new() }
    }

    /// Liveness check. The in-memory model is always reachable.
    pub fn ping(&self) -> (r: Result<(), AppError>)
        ensures
            r is Ok,
    {
        Ok(())
    }

    /// Atomically increments the counter for `code`, stamps the last
    /// access time with `accessed_at`, and indexes the code — all three
    /// as one step: no other record changes, and no intermediate state is
    /// observable. Not idempotent by design: each call strictly
    /// increments. Fails only when the counter would overflow its width,
    /// leaving the store unchanged.
    pub fn increment(&mut self, code: &str, accessed_at: &str) -> (r: Result<(), AppError>)
        requires
            old(self).wf(),
        ensures
            final(self).wf(),
            r is Ok <==> count_of(old(self)@, code@) < i64::MAX,
            r is Err ==> final(self)@ == old(self)@,
            r matches Err(e) ==> e is Redis,
            r is Ok ==> {
                &&& has_code(final(self)@, code@)
                &&& count_of(final(self)@, code@) == count_of(old(self)@, code@) + 1
                &&& last_of(final(self)@, code@) == Some(accessed_at@)
                &&& final(self)@.len() == old(self)@.len() + (
                    if has_code(old(self)@, code@) { 0int } else { 1int }
                )
                &&& forall|c: Seq<char>| c != code@ ==> has_code(final(self)@, c)
                    == has_code(old(self)@, c)
                &&& forall|c: Seq<char>| c != code@ ==> count_of(final(self)@, c)
                    == count_of(old(self)@, c)
                &&& forall|c: Seq<char>| c != code@ ==> last_of(final(self)@, c)
                    == last_of(old(self)@, c)
            },
            // the index order is pinned: a known code is updated in place,
            // a new code is appended, so the listing window is determined
            r is Ok && has_code(old(self)@, code@) ==> final(self)@ == old(self)@.update(
                idx_of(old(self)@, code@),
                rec_of(final(self)@, code@),
            ),
            r is Ok && !has_code(old(self)@, code@) ==> final(self)@ == old(self)@.push(
                rec_of(final(self)@, code@),
            ),
    {
        let ghost rs0 = self.entries@;
        let n = self.entries.len();
        let mut i: usize = 0;
        while i < n
            invariant
                n == self.entries@.len(),
                self.entries@ == rs0,
                rs0 == old(self)@,
                unique_codes(rs0),
                0 <= i <= n,
                forall|k: int| 0 <= k < i ==> rs0[k].code@ != code@,
            decreases n - i,
        {
            if str_eq(self.entries[i].code.as_str(), code) {
                proof {
                    lemma_at(rs0, code@, i as int);
                }
                let cnt = self.entries[i].access_count;
                if cnt == i64::MAX {
                    return Err(AppError::Redis(String::from_str(
                        "counter increment would overflow",
                    )));
                }
                let upd = Analytics {
                    code: self.entries[i].code.clone(),
                    access_count: cnt + 1,
                    last_accessed_at: Some(accessed_at.to_owned()),
                };
                self.entries[i] = upd;
                proof {
                    let rs1 = self.entries@;
                    assert(rs1 =~= rs0.update(i as int, rs1[i as int]));
                    assert(unique_codes(rs1));
                    lemma_at(rs1, code@, i as int);
                    assert(rs1 == rs0.update(idx_of(rs0, code@), rec_of(rs1, code@)));
                    assert forall|c: Seq<char>| c != code@ implies has_code(rs1, c)
                        == has_code(rs0, c) && count_of(rs1, c) == count_of(rs0, c)
                        && last_of(rs1, c) == last_of(rs0, c) by {
                        if has_code(rs0, c) {
                            let k = idx_of(rs0, c);
                            assert(rs1[k] == rs0[k]);
                            lemma_at(rs1, c, k);
                        }
                        if has_code(rs1, c) {
                            let k = idx_of(rs1, c);
                            assert(rs0[k] == rs1[k]);
                            lemma_at(rs0, c, k);
                        }
                    }
                }
                return Ok(());
            }
            i += 1;
        }
        let rec = Analytics {
            code: code.to_owned(),
            access_count: 1,
            last_accessed_at: Some(accessed_at.to_owned()),
        };
        self.entries.push(rec);
        proof {
            let rs1 = self.entries@;
            let last = rs0.len() as int;
            assert(!has_code(rs0, code@));
            assert(rs1[last].code@ == code@);
            assert(unique_codes(rs1));
            lemma_at(rs1, code@, last);
            assert(rs1 =~= rs0.push(rec_of(rs1, code@)));
            assert forall|c: Seq<char>| c != code@ implies has_code(rs1, c)
                == has_code(rs0, c) && count_of(rs1, c) == count_of(rs0, c)
                && last_of(rs1, c) == last_of(rs0, c) by {
                if has_code(rs0, c) {
                    let k = idx_of(rs0, c);
                    assert(rs1[k] == rs0[k]);
                    lemma_at(rs1, c, k);
                }
                if has_code(rs1, c) {
                    let k = idx_of(rs1, c);
                    assert(k < rs0.len());
                    lemma_at(rs0, c, k);
                }
            }
        }
        Ok(())
    }

    /// Point lookup: the record for `code`, or no record — not an error —
    /// when no event has ever been recorded for it.
    pub fn get(&self, code: &str) -> (r: Result<Option<Analytics>, AppError>)
        requires
            self.wf(),
        ensures
            r is Ok,
            (r matches Ok(o) ==> (o is Some <==> has_code(self@, code@))),
            r matches Ok(Some(a)) ==> a == rec_of(self@, code@),
    {
        let n = self.entries.len();
        let mut i: usize = 0;
        while i < n
            invariant
                n == self.entries@.len(),
                self.wf(),
                0 <= i <= n,
                forall|k: int| 0 <= k < i ==> self.entries@[k].code@ != code@,
            decreases n - i,
        {
            if str_eq(self.entries[i].code.as_str(), code) {
                proof {
                    lemma_at(self.entries@, code@, i as int);
                }
                return Ok(Some(self.entries[i].clone()));
            }
            i += 1;
        }
        Ok(None)
    }

    /// Paginated, count-sorted listing. The `offset`/`limit` window is
    /// taken over the code index in its unspecified internal order; the
    /// selected records are returned sorted by descending access count,
    /// together with the full index size for pagination metadata.
    pub fn list(&self, limit: usize, offset: usize) -> (r: Result<(Vec<Analytics>, usize), AppError>)
        requires
            self.wf(),
        ensures
            r is Ok,
            r matches Ok(p) ==> {
                &&& p.1 == self@.len()
                &&& sorted_desc(p.0@)
                &&& p.0@.to_multiset() == self@.subrange(
                    win_lo(self@.len() as int, offset as int),
                    win_hi(self@.len() as int, limit as int, offset as int),
                ).to_multiset()
            },
    {
        let len = self.entries.len();
        let lo = if offset > len {
            len
        } else {
            offset
        };
        let hi = if limit > len - lo {
            len
        } else {
            lo + limit
        };
        let mut items: Vec<Analytics> = Vec::new();
        let mut k: usize = lo;
        while k < hi
            invariant
                lo <= k <= hi <= self.entries@.len(),
                items@ == self.entries@.subrange(lo as int, k as int),
            decreases hi - k,
        {
            items.push(self.entries[k].clone());
            proof {
                assert(items@ =~= self.entries@.subrange(lo as int, k + 1));
            }
            k += 1;
        }
        sort_by_count_desc(&mut items);
        proof {
            assert(win_lo(self@.len() as int, offset as int) == lo as int);
            assert(win_hi(self@.len() as int, limit as int, offset as int) == hi as int);
        }
        Ok((items, len))
    }
}

} // verus!
