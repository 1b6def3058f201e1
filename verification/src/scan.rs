//! The match engine: running a compiled query over a byte region.

use vstd::prelude::*;

verus! {

use crate::query::{BuildError, MaskedByte, Query, compiled, mb_matches};

/// Whether the pattern matches the region `data` at start offset `i`: the
/// whole pattern fits, and every position agrees under its mask.
pub open spec fn matches_at(pattern: Seq<MaskedByte>, data: Seq<u8>, i: int) -> bool {
    &&& 0 <= i
    &&& i + pattern.len() <= data.len()
    &&& forall|j: int| 0 <= j < pattern.len() ==> mb_matches(pattern[j], data[i + j])
}

/// The number of candidate start offsets a scan tries: one for every offset
/// inside the region at which the whole pattern still fits.  A pattern
/// longer than the region has none; an empty pattern has one per address in
/// the half-open region, so never the region's end.
pub open spec fn candidate_count(pattern: Seq<MaskedByte>, data: Seq<u8>) -> int {
    if pattern.len() == 0 {
        data.len() as int
    } else if pattern.len() <= data.len() {
        data.len() - pattern.len() + 1
    } else {
        0
    }
}

/// The start offsets below `n` at which the pattern matches the region, in
/// ascending order.
pub open spec fn starts_below(pattern: Seq<MaskedByte>, data: Seq<u8>, n: int) -> Seq<int>
    decreases n,
{
    if n <= 0 {
        Seq::empty()
    } else if matches_at(pattern, data, n - 1) {
        starts_below(pattern, data, n - 1).push(n - 1)
    } else {
        starts_below(pattern, data, n - 1)
    }
}

/// Every start offset at which the pattern matches the region, in ascending
/// order; overlapping matches are all present.
pub open spec fn match_starts(pattern: Seq<MaskedByte>, data: Seq<u8>) -> Seq<int> {
    starts_below(pattern, data, candidate_count(pattern, data))
}

/// The addresses a full scan reports: every match start, shifted by the
/// region's base address and the query's anchor.
pub open spec fn reported_all(pattern: Seq<MaskedByte>, anchor: int, data: Seq<u8>, base: int) -> Seq<
    int,
> {
    match_starts(pattern, data).map_values(|s: int| base + anchor + s)
}

/// The addresses a scan bounded to the first `n` matches reports: the
/// prefix of the full scan's addresses, cut off after `n`.
pub open spec fn reported_first_n(
    pattern: Seq<MaskedByte>,
    anchor: int,
    data: Seq<u8>,
    base: int,
    n: int,
) -> Seq<int> {
    let all = reported_all(pattern, anchor, data, base);
    if n <= all.len() {
        all.take(n)
    } else {
        all
    }
}

/// A sequence of reported addresses, viewed as mathematical integers.
pub open spec fn addrs_of(v: Seq<usize>) -> Seq<int> {
    v.map_values(|a: usize| a as int)
}

impl Query {
    /// Returns whether the query matches the region at start offset `at`.
    pub fn does_match_at(&self, region: &[u8], at: usize) -> (r: bool)
        ensures
            r == matches_at(self.bytes@, region@, at as int),
    {
        if self.bytes.len() > region.len() || at > region.len() - self.bytes.len() {
            return false;
        }
        let mut j: usize = 0;
        while j < self.bytes.len()
            invariant
                j <= self.bytes@.len(),
                at + self.bytes@.len() <= region@.len(),
                region@.len() <= usize::MAX,
                forall|k: int| 0 <= k < j ==> mb_matches(self.bytes@[k], region@[at + k]),
            decreases self.bytes@.len() - j,
        {
            if !self.bytes[j].matches_byte(region[at + j]) {
                return false;
            }
            j = j + 1;
        }
        true
    }
}

/// A lazy, in-progress scan: matches are computed one at a time as they are
/// asked for, in ascending order of start offset.
pub struct QueryIter<'a> {
    /// The query being run.
    pub query: &'a Query,
    /// The byte region being scanned.
    pub region: &'a [u8],
    /// The base address the region was read from; reported addresses are
    /// offsets into the region shifted by it and by the query's anchor.
    pub base: usize,
    /// The next candidate start offset to try.
    pub cursor: usize,
    /// Whether every candidate has been tried.
    pub done: bool,
}

impl<'a> QueryIter<'a> {
    /// How far the scan has come: the number of candidate start offsets
    /// already tried.
    pub open spec fn pos(self) -> int {
        if self.done {
            candidate_count(self.query.bytes@, self.region@)
        } else {
            self.cursor as int
        }
    }

    /// The iterator's well-formedness: the query's own invariant, room to
    /// report every address without wrapping, and a cursor that still names
    /// a candidate unless the scan is done.
    pub open spec fn wf(self) -> bool {
        &&& self.query.wf()
        &&& self.base + self.region@.len() <= usize::MAX
        &&& (self.done || self.cursor < candidate_count(self.query.bytes@, self.region@))
    }

    /// Returns the next reported match address, or `None` once every
    /// candidate start offset has been tried.  Candidates are tried in
    /// ascending order, one byte apart, so overlapping matches are all
    /// reported.
    pub fn next(&mut self) -> (r: Option<usize>)
        requires
            old(self).wf(),
        ensures
            final(self).wf(),
            final(self).query == old(self).query,
            final(self).region == old(self).region,
            final(self).base == old(self).base,
            old(self).pos() <= final(self).pos() <= candidate_count(
                old(self).query.bytes@,
                old(self).region@,
            ),
            match r {
                Some(a) => {
                    let t = final(self).pos() - 1;
                    &&& old(self).pos() <= t
                    &&& matches_at(old(self).query.bytes@, old(self).region@, t)
                    &&& forall|u: int|
                        old(self).pos() <= u < t ==> !matches_at(
                            old(self).query.bytes@,
                            old(self).region@,
                            u,
                        )
                    &&& a == old(self).base + old(self).query.anchor + t
                },
                None => {
                    &&& final(self).pos() == candidate_count(
                        old(self).query.bytes@,
                        old(self).region@,
                    )
                    &&& forall|u: int|
                        old(self).pos() <= u < candidate_count(
                            old(self).query.bytes@,
                            old(self).region@,
                        ) ==> !matches_at(old(self).query.bytes@, old(self).region@, u)
                },
            },
    {
        while !self.done
            invariant
                self.wf(),
                self.query == old(self).query,
                self.region == old(self).region,
                self.base == old(self).base,
                old(self).pos() <= self.pos() <= candidate_count(
                    self.query.bytes@,
                    self.region@,
                ),
                forall|u: int|
                    old(self).pos() <= u < self.pos() ==> !matches_at(
                        self.query.bytes@,
                        self.region@,
                        u,
                    ),
            decreases candidate_count(self.query.bytes@, self.region@) - self.pos(),
        {
            let c = self.cursor;
            let hit = self.query.does_match_at(self.region, c);
            // The last candidate: the region's final address for an empty
            // pattern, else the last offset where the pattern still fits.
            let last = if self.query.bytes.len() == 0 {
                self.region.len() - 1
            } else {
                self.region.len() - self.query.bytes.len()
            };
            if c < last {
                self.cursor = c + 1;
            } else {
                self.done = true;
            }
            if hit {
                return Some(self.base + self.query.anchor + c);
            }
        }
        None
    }
}

/// Over a stretch of candidates none of which matches, the list of match
/// starts does not grow.
pub proof fn lemma_starts_below_extend(pattern: Seq<MaskedByte>, data: Seq<u8>, k: int, m: int)
    requires
        0 <= k <= m,
        forall|u: int| k <= u < m ==> !matches_at(pattern, data, u),
    ensures
        starts_below(pattern, data, m) == starts_below(pattern, data, k),
    decreases m - k,
{
    if m > k {
        lemma_starts_below_extend(pattern, data, k, m - 1);
    }
}

/// The match starts below a smaller bound are a prefix of those below a
/// larger one.
pub proof fn lemma_starts_below_prefix(pattern: Seq<MaskedByte>, data: Seq<u8>, k: int, m: int)
    requires
        k <= m,
    ensures
        starts_below(pattern, data, k).is_prefix_of(starts_below(pattern, data, m)),
    decreases m - k,
{
    if m > k {
        lemma_starts_below_prefix(pattern, data, k, m - 1);
    }
}

/// What the list of match starts below `n` holds: exactly the offsets below
/// `n` at which the pattern matches, each once, in ascending order.
pub proof fn lemma_starts_below_props(pattern: Seq<MaskedByte>, data: Seq<u8>, n: int)
    ensures
        forall|k: int|
            0 <= k < starts_below(pattern, data, n).len() ==> (0 <= #[trigger] starts_below(
                pattern,
                data,
                n,
            )[k] < n && matches_at(pattern, data, starts_below(pattern, data, n)[k])),
        forall|i: int|
            0 <= i < n && matches_at(pattern, data, i) ==> starts_below(
                pattern,
                data,
                n,
            ).contains(i),
        forall|k1: int, k2: int|
            0 <= k1 < k2 < starts_below(pattern, data, n).len() ==> starts_below(
                pattern,
                data,
                n,
            )[k1] < starts_below(pattern, data, n)[k2],
    decreases n,
{
    if n > 0 {
        lemma_starts_below_props(pattern, data, n - 1);
        let prev = starts_below(pattern, data, n - 1);
        let cur = starts_below(pattern, data, n);
        if matches_at(pattern, data, n - 1) {
            assert forall|i: int| 0 <= i < n && matches_at(pattern, data, i) implies cur.contains(
                i,
            ) by {
                if i < n - 1 {
                    let k = choose|k: int| 0 <= k < prev.len() && prev[k] == i;
                    assert(cur[k] == i);
                } else {
                    assert(cur[cur.len() - 1] == i);
                }
            }
        } else {
            assert forall|i: int| 0 <= i < n && matches_at(pattern, data, i) implies cur.contains(
                i,
            ) by {
                assert(i < n - 1);
            }
        }
    }
}

impl Query {
    /// Returns a lazy scan over query matches in the byte region `region`,
    /// which the caller read starting at address `base`.
    pub fn iter_matches_in<'a>(&'a self, region: &'a [u8], base: usize) -> (it: QueryIter<'a>)
        requires
            self.wf(),
            base + region@.len() <= usize::MAX,
        ensures
            it.wf(),
            it.query == self,
            it.region@ == region@,
            it.base == base,
            it.pos() == 0,
    {
        let done = self.bytes.len() > region.len() || region.len() == 0;
        QueryIter { query: self, region, base, cursor: 0, done }
    }

    /// Executes the query on the byte region `region`, read from address
    /// `base`, and returns every reported match address in ascending order.
    pub fn find_matches_in(&self, region: &[u8], base: usize) -> (r: Vec<usize>)
        requires
            self.wf(),
            base + region@.len() <= usize::MAX,
        ensures
            addrs_of(r@) == reported_all(self.bytes@, self.anchor as int, region@, base as int),
    {
        let pattern = Ghost(self.bytes@);
        let data = Ghost(region@);
        let mut r: Vec<usize> = Vec::new();
        let mut it = self.iter_matches_in(region, base);
        loop
            invariant
                pattern@ == self.bytes@,
                data@ == region@,
                it.wf(),
                it.query == self,
                it.region@ == region@,
                it.base == base,
                it.pos() <= candidate_count(pattern@, data@),
                r@.len() == starts_below(pattern@, data@, it.pos()).len(),
                forall|k: int|
                    0 <= k < r@.len() ==> r@[k] == base + self.anchor + starts_below(
                        pattern@,
                        data@,
                        it.pos(),
                    )[k],
            ensures
                r@.len() == match_starts(pattern@, data@).len(),
                forall|k: int|
                    0 <= k < r@.len() ==> r@[k] == base + self.anchor + match_starts(
                        pattern@,
                        data@,
                    )[k],
            decreases candidate_count(pattern@, data@) - it.pos(),
        {
            let ghost p0 = it.pos();
            match it.next() {
                Some(a) => {
                    proof {
                        lemma_starts_below_extend(pattern@, data@, p0, it.pos() - 1);
                    }
                    r.push(a);
                },
                None => {
                    proof {
                        lemma_starts_below_extend(pattern@, data@, p0, it.pos());
                    }
                    break;
                },
            }
        }
        proof {
            assert(addrs_of(r@) =~= reported_all(
                self.bytes@,
                self.anchor as int,
                region@,
                base as int,
            ));
        }
        r
    }
}

/// Searches the byte region `region`, read from address `base`, for every
/// address matching the given query string, and returns all matches; or
/// returns the error the query string fails to compile with.
pub fn find_in(what: &str, region: &[u8], base: usize) -> (r: Result<Vec<usize>, BuildError>)
    requires
        base + region@.len() <= usize::MAX,
    ensures
        match r {
            Ok(v) => compiled(what@) matches Ok(p) && addrs_of(v@) == reported_all(
                p.0,
                p.1 as int,
                region@,
                base as int,
            ),
            Err(e) => compiled(what@) == Err::<(Seq<MaskedByte>, nat), BuildError>(e),
        },
{
    let query = match Query::build(what) {
        Ok(q) => q,
        Err(e) => {
            return Err(e);
        },
    };
    Ok(query.find_matches_in(region, base))
}

/// Searches the byte region `region`, read from address `base`, for
/// addresses matching the given query string, and returns the first `n`
/// matches — a prefix of what the full search would report — without
/// scanning past the `n`th match's start; or returns the error the query
/// string fails to compile with.
pub fn find_n_in(what: &str, region: &[u8], base: usize, n: usize) -> (r: Result<
    Vec<usize>,
    BuildError,
>)
    requires
        base + region@.len() <= usize::MAX,
    ensures
        match r {
            Ok(v) => compiled(what@) matches Ok(p) && addrs_of(v@) == reported_first_n(
                p.0,
                p.1 as int,
                region@,
                base as int,
                n as int,
            ),
            Err(e) => compiled(what@) == Err::<(Seq<MaskedByte>, nat), BuildError>(e),
        },
{
    let query = match Query::build(what) {
        Ok(q) => q,
        Err(e) => {
            return Err(e);
        },
    };
    let pattern = Ghost(query.bytes@);
    let data = Ghost(region@);
    let anchor = Ghost(query.anchor as int);
    let mut r: Vec<usize> = Vec::new();
    let mut it = query.iter_matches_in(region, base);
    loop
        invariant
            pattern@ == query.bytes@,
            data@ == region@,
            anchor@ == query.anchor as int,
            it.wf(),
            it.query == &query,
            it.region@ == region@,
            it.base == base,
            it.pos() <= candidate_count(pattern@, data@),
            r@.len() <= n,
            r@.len() == starts_below(pattern@, data@, it.pos()).len(),
            forall|k: int|
                0 <= k < r@.len() ==> r@[k] == base + anchor@ + starts_below(
                    pattern@,
                    data@,
                    it.pos(),
                )[k],
        ensures
            addrs_of(r@) == reported_first_n(pattern@, anchor@, data@, base as int, n as int),
        decreases candidate_count(pattern@, data@) - it.pos(),
    {
        if r.len() == n {
            proof {
                lemma_starts_below_prefix(
                    pattern@,
                    data@,
                    it.pos(),
                    candidate_count(pattern@, data@),
                );
                assert(match_starts(pattern@, data@).take(n as int) =~= starts_below(
                    pattern@,
                    data@,
                    it.pos(),
                ));
                assert(addrs_of(r@) =~= reported_first_n(
                    pattern@,
                    anchor@,
                    data@,
                    base as int,
                    n as int,
                ));
            }
            break;
        }
        let ghost p0 = it.pos();
        match it.next() {
            Some(a) => {
                proof {
                    lemma_starts_below_extend(pattern@, data@, p0, it.pos() - 1);
                }
                r.push(a);
            },
            None => {
                proof {
                    lemma_starts_below_extend(pattern@, data@, p0, it.pos());
                    assert(addrs_of(r@) =~= reported_first_n(
                        pattern@,
                        anchor@,
                        data@,
                        base as int,
                        n as int,
                    ));
                }
                break;
            },
        }
    }
    Ok(r)
}

/// Law: for every query, region and bound, the bounded scan's addresses are
/// a prefix of the full scan's, in the same order, cut off after `n`.
pub proof fn lemma_first_n_prefix(
    pattern: Seq<MaskedByte>,
    anchor: int,
    data: Seq<u8>,
    base: int,
    n: int,
)
    requires
        0 <= n,
    ensures
        reported_first_n(pattern, anchor, data, base, n).is_prefix_of(
            reported_all(pattern, anchor, data, base),
        ),
        reported_first_n(pattern, anchor, data, base, n).len() == if n <= reported_all(
            pattern,
            anchor,
            data,
            base,
        ).len() {
            n
        } else {
            reported_all(pattern, anchor, data, base).len() as int
        },
{
    let all = reported_all(pattern, anchor, data, base);
    let firstn = reported_first_n(pattern, anchor, data, base, n);
    assert(firstn =~= all.subrange(0, firstn.len() as int));
}

/// Law: scanning has no hidden state — the addresses a full scan reports
/// are a function of the query, the region's contents and its base address
/// alone, so repeated scans over an unchanged region yield identical
/// sequences.
pub proof fn lemma_scan_deterministic(
    pattern: Seq<MaskedByte>,
    anchor: int,
    data: Seq<u8>,
    base: int,
    r1: Seq<int>,
    r2: Seq<int>,
)
    requires
        r1 == reported_all(pattern, anchor, data, base),
        r2 == reported_all(pattern, anchor, data, base),
    ensures
        r1 == r2,
{
}

/// Law: a pattern longer than the region yields zero matches — and, by the
/// scan contracts, never an error.
pub proof fn lemma_too_long_no_matches(pattern: Seq<MaskedByte>, data: Seq<u8>)
    requires
        pattern.len() > data.len(),
    ensures
        match_starts(pattern, data) == Seq::<int>::empty(),
{
}

/// Where the pattern matches at every offset below `n`, the match starts
/// below `n` are exactly `0, 1, ..., n - 1`.
proof fn lemma_all_match_starts(pattern: Seq<MaskedByte>, data: Seq<u8>, n: int)
    requires
        0 <= n,
        forall|i: int| 0 <= i < n ==> matches_at(pattern, data, i),
    ensures
        starts_below(pattern, data, n).len() == n,
        forall|k: int| 0 <= k < n ==> starts_below(pattern, data, n)[k] == k,
    decreases n,
{
    if n > 0 {
        lemma_all_match_starts(pattern, data, n - 1);
    }
}

/// Law: a zero-length pattern is degenerate, not an error — it matches at
/// every address in the half-open region, and nowhere else.
pub proof fn lemma_empty_pattern_matches_everywhere(data: Seq<u8>)
    ensures
        match_starts(Seq::<MaskedByte>::empty(), data).len() == data.len(),
        forall|k: int|
            0 <= k < data.len() ==> match_starts(Seq::<MaskedByte>::empty(), data)[k] == k,
{
    lemma_all_match_starts(Seq::<MaskedByte>::empty(), data, data.len() as int);
}

/// Law: the match starts are exactly the offsets inside the half-open
/// region at which the pattern matches — overlapping matches included —
/// listed in ascending order.
pub proof fn lemma_match_starts_exact(pattern: Seq<MaskedByte>, data: Seq<u8>)
    ensures
        forall|i: int| #[trigger]
            match_starts(pattern, data).contains(i) <==> matches_at(pattern, data, i) && i
                < data.len(),
        forall|k1: int, k2: int|
            0 <= k1 < k2 < match_starts(pattern, data).len() ==> match_starts(pattern, data)[k1]
                < match_starts(pattern, data)[k2],
{
    let cand = candidate_count(pattern, data);
    let ms = match_starts(pattern, data);
    lemma_starts_below_props(pattern, data, cand);
    assert forall|i: int| #[trigger] ms.contains(i) implies matches_at(pattern, data, i) && i
        < data.len() by {
        let k = choose|k: int| 0 <= k < ms.len() && ms[k] == i;
        assert(matches_at(pattern, data, ms[k]));
        assert(ms[k] < cand);
    }
    assert forall|i: int| matches_at(pattern, data, i) && i < data.len() implies ms.contains(i) by {
        assert(i + pattern.len() <= data.len());
        assert(i < cand);
    }
}

} // verus!
