//! The locality-sensitive-hashing index: a bank of hash tables mapping
//! per-table signatures to buckets of internal vector indices.
//!
//! A vector is carried as the sequence of IEEE-754 bit patterns of its
//! 32-bit floats. Computing a sign-random-projection signature is floating
//! point work and is the caller's capability: every operation that needs the
//! signatures takes one `u64` per table, and the index guarantees that its
//! bucket structure is exactly determined by the sequence of (vector,
//! signature row) insertions.

use vstd::prelude::*;
use std::collections::HashMap;
use crate::errors::ApiError;

verus! {

broadcast use vstd::std_specs::hash::group_hash_axioms;

/// The bucket of one table: the internal indices of the stored vectors whose
/// signature in table `t` is `s`, in insertion order.
pub open spec fn table_bucket(rows: Seq<Seq<u64>>, t: int, s: u64) -> Seq<usize>
    decreases rows.len(),
{
    if rows.len() == 0 {
        Seq::empty()
    } else {
        let prev = table_bucket(rows.drop_last(), t, s);
        if rows.last()[t] == s {
            prev.push((rows.len() - 1) as usize)
        } else {
            prev
        }
    }
}

/// The concatenation of the buckets a query signature row selects in tables
/// `0 .. tables`, lower table first.
pub open spec fn candidate_ids(rows: Seq<Seq<u64>>, qrow: Seq<u64>, tables: int) -> Seq<usize>
    decreases tables,
{
    if tables <= 0 {
        Seq::empty()
    } else {
        candidate_ids(rows, qrow, tables - 1) + table_bucket(rows, tables - 1, qrow[tables - 1])
    }
}

/// First-seen-order deduplication of a sequence.
pub open spec fn dedup_first_seen(s: Seq<usize>) -> Seq<usize>
    decreases s.len(),
{
    if s.len() == 0 {
        Seq::empty()
    } else {
        let prev = dedup_first_seen(s.drop_last());
        if prev.contains(s.last()) {
            prev
        } else {
            prev.push(s.last())
        }
    }
}

/// The first `n` elements of `s`, or all of `s` when it is shorter.
pub open spec fn take_at_most(s: Seq<usize>, n: nat) -> Seq<usize> {
    if n <= s.len() {
        s.take(n as int)
    } else {
        s
    }
}

/// What a bucket query returns: the union of the selected buckets,
/// deduplicated in first-seen order, truncated to the first `n` entries.
pub open spec fn spec_query_ids(
    rows: Seq<Seq<u64>>,
    qrow: Seq<u64>,
    tables: int,
    n: nat,
) -> Seq<usize> {
    take_at_most(dedup_first_seen(candidate_ids(rows, qrow, tables)), n)
}

/// The sign-random-projection index: an append-only store of vectors plus,
/// for each table, a map from signature to bucket.
pub struct LshIndex {
    pub n_projections: usize,
    pub n_tables: usize,
    pub dim: usize,
    pub store: Vec<Vec<u32>>,
    pub sig_rows: Ghost<Seq<Seq<u64>>>,
    pub buckets: HashMap<u128, Vec<usize>>,
}

impl LshIndex {
    /// The stored vectors, in insertion order; a vector's position is its
    /// internal index.
    pub open spec fn vectors(&self) -> Seq<Seq<u32>> {
        self.store@.map_values(|v: Vec<u32>| v@)
    }

    /// The signature rows the stored vectors were inserted with, in the same
    /// order.
    pub open spec fn sig_history(&self) -> Seq<Seq<u64>> {
        self.sig_rows@
    }

    pub open spec fn len_spec(&self) -> nat {
        self.store@.len()
    }

    pub open spec fn table_count(&self) -> nat {
        self.n_tables as nat
    }

    pub open spec fn dimension(&self) -> nat {
        self.dim as nat
    }

    pub open spec fn projection_count(&self) -> nat {
        self.n_projections as nat
    }

    /// The map key a (table, signature) pair is filed under.
    pub open spec fn bucket_key(t: int, s: u64) -> u128
        recommends
            0 <= t < 0x1_0000_0000_0000_0000,
    {
        (t * 0x1_0000_0000_0000_0000 + s) as u128
    }

    /// The bucket the exec table bank holds for table `t` and signature `s`.
    pub open spec fn bucket(&self, t: int, s: u64) -> Seq<usize> {
        let k = Self::bucket_key(t, s);
        if self.buckets@.contains_key(k) {
            self.buckets@[k]@
        } else {
            Seq::empty()
        }
    }

    /// Well-formedness: one signature row of length `n_tables` per stored
    /// vector, every stored vector of length `dim`, and every bucket equal to
    /// what the insertion history dictates.
    pub open spec fn wf(&self) -> bool {
        &&& self.sig_rows@.len() == self.store@.len()
        &&& self.store@.len() <= usize::MAX
        &&& forall|i: int|
            0 <= i < self.sig_rows@.len() ==> (#[trigger] self.sig_rows@[i]).len()
                == self.n_tables
        &&& forall|i: int|
            0 <= i < self.store@.len() ==> (#[trigger] self.store@[i])@.len() == self.dim
        &&& forall|t: int, s: u64|
            0 <= t < self.n_tables ==> #[trigger] self.bucket(t, s) == table_bucket(
                self.sig_rows@,
                t,
                s,
            )
    }

    /// Distinct (table, signature) pairs are filed under distinct keys.
    pub proof fn lemma_bucket_key_injective(t1: int, s1: u64, t2: int, s2: u64)
        requires
            0 <= t1 < 0x1_0000_0000_0000_0000,
            0 <= t2 < 0x1_0000_0000_0000_0000,
        ensures
            Self::bucket_key(t1, s1) == Self::bucket_key(t2, s2) <==> (t1 == t2 && s1 == s2),
    {
        let c: int = 0x1_0000_0000_0000_0000;
        assert(0 <= t1 * c + s1 < 0x1_0000_0000_0000_0000_0000_0000_0000_0000);
        assert(0 <= t2 * c + s2 < 0x1_0000_0000_0000_0000_0000_0000_0000_0000);
        if Self::bucket_key(t1, s1) == Self::bucket_key(t2, s2) {
            assert(t1 * c + s1 == t2 * c + s2);
            assert(t1 == t2 && s1 == s2);
        }
    }

    /// Appending one signature row extends exactly the buckets the row
    /// selects, with the new vector's internal index.
    pub proof fn lemma_table_bucket_push(rows: Seq<Seq<u64>>, row: Seq<u64>, t: int, s: u64)
        requires
            rows.len() <= usize::MAX,
        ensures
            table_bucket(rows.push(row), t, s) == if row[t] == s {
                table_bucket(rows, t, s).push(rows.len() as usize)
            } else {
                table_bucket(rows, t, s)
            },
    {
        assert(rows.push(row).drop_last() =~= rows);
        assert(rows.push(row).last() == row);
    }

    /// A bucket holds exactly the indices of the vectors whose signature in
    /// table `t` is `s`.
    pub proof fn lemma_table_bucket_membership(rows: Seq<Seq<u64>>, t: int, s: u64)
        requires
            rows.len() <= usize::MAX,
        ensures
            forall|id: usize| #[trigger]
                table_bucket(rows, t, s).contains(id) <==> (id < rows.len() && rows[id as int][t]
                    == s),
        decreases rows.len(),
    {
        if rows.len() == 0 {
        } else {
            Self::lemma_table_bucket_membership(rows.drop_last(), t, s);
            let prev = table_bucket(rows.drop_last(), t, s);
            let whole = table_bucket(rows, t, s);
            assert forall|id: usize|
                #[trigger] whole.contains(id) <==> (id < rows.len() && rows[id as int][t]
                    == s) by {
                if rows.last()[t] == s {
                    assert(whole =~= prev.push((rows.len() - 1) as usize));
                    if id < rows.len() && rows[id as int][t] == s {
                        if id + 1 == rows.len() {
                            assert(whole.last() == id);
                            assert(whole.contains(id));
                        } else {
                            assert(rows.drop_last()[id as int] == rows[id as int]);
                            assert(prev.contains(id));
                            let k = choose|k: int| 0 <= k < prev.len() && prev[k] == id;
                            assert(whole[k] == id);
                        }
                    }
                    if whole.contains(id) {
                        let k = choose|k: int| 0 <= k < whole.len() && whole[k] == id;
                        if k < prev.len() {
                            assert(prev.contains(id));
                            assert(rows.drop_last()[id as int] == rows[id as int]);
                        } else {
                            assert(id == (rows.len() - 1) as usize);
                        }
                    }
                } else {
                    assert(whole =~= prev);
                    if id < rows.len() && rows[id as int][t] == s {
                        assert(id + 1 != rows.len());
                        assert(rows.drop_last()[id as int] == rows[id as int]);
                    }
                    if prev.contains(id) {
                        assert(rows.drop_last()[id as int] == rows[id as int]);
                    }
                }
            }
        }
    }

    /// Creates an empty index: `n_projections` sign projections per table,
    /// `n_tables` tables, vectors of length `dim`.
    pub fn new(n_projections: usize, n_tables: usize, dim: usize) -> (index: Self)
        ensures
            index.wf(),
            index.vectors() =~= Seq::<Seq<u32>>::empty(),
            index.sig_history() =~= Seq::<Seq<u64>>::empty(),
            index.table_count() == n_tables,
            index.dimension() == dim,
            index.projection_count() == n_projections,
    {
        let index = LshIndex {
            n_projections,
            n_tables,
            dim,
            store: Vec::new(),
            sig_rows: Ghost(Seq::empty()),
            buckets: HashMap::new(),
        };
        proof {
            assert forall|t: int, s: u64| 0 <= t < index.n_tables implies #[trigger] index.bucket(
                t,
                s,
            ) == table_bucket(index.sig_rows@, t, s) by {
                assert(!index.buckets@.contains_key(Self::bucket_key(t, s)));
            }
            assert(index.vectors() =~= Seq::<Seq<u32>>::empty());
        }
        index
    }

    /// Appends one vector with its signature row and files its internal index
    /// into the selected bucket of every table.
    fn insert_one(&mut self, v: &Vec<u32>, row: &Vec<u64>)
        requires
            old(self).wf(),
            old(self).len_spec() < usize::MAX,
            v@.len() == old(self).dimension(),
            row@.len() == old(self).table_count(),
        ensures
            final(self).wf(),
            final(self).vectors() =~= old(self).vectors().push(v@),
            final(self).sig_history() =~= old(self).sig_history().push(row@),
            final(self).table_count() == old(self).table_count(),
            final(self).dimension() == old(self).dimension(),
            final(self).projection_count() == old(self).projection_count(),
    {
        let id = self.store.len();
        let copy = copy_words(v);
        self.store.push(copy);
        proof {
            self.sig_rows@ = self.sig_rows@.push(row@);
            assert(self.vectors() =~= old(self).vectors().push(v@));
        }
        let ghost new_rows = self.sig_rows@;
        let ghost old_rows = old(self).sig_rows@;
        proof {
            assert forall|tt: int, s: u64| 0 <= tt < self.n_tables implies #[trigger] self.bucket(
                tt,
                s,
            ) == table_bucket(old_rows, tt, s) by {
                assert(old(self).bucket(tt, s) == table_bucket(old_rows, tt, s));
            }
        }
        let n_tables = self.n_tables;
        let mut t: usize = 0;
        while t < n_tables
            invariant
                self.n_projections == old(self).n_projections,
                self.n_tables == old(self).n_tables,
                self.dim == old(self).dim,
                n_tables == self.n_tables,
                self.vectors() == old(self).vectors().push(v@),
                self.store@.len() == old(self).store@.len() + 1,
                self.sig_rows@ == new_rows,
                new_rows == old_rows.push(row@),
                old_rows == old(self).sig_rows@,
                old(self).wf(),
                v@.len() == old(self).dimension(),
                old_rows.len() == id,
                id == old(self).store@.len(),
                id < usize::MAX,
                row@.len() == self.n_tables,
                t <= n_tables,
                forall|tt: int, s: u64|
                    0 <= tt < self.n_tables ==> #[trigger] self.bucket(tt, s) == if tt < t {
                        table_bucket(new_rows, tt, s)
                    } else {
                        table_bucket(old_rows, tt, s)
                    },
            decreases n_tables - t,
        {
            let s = row[t];
            let key = bucket_key_exec(t, s);
            let updated = match self.buckets.get(&key) {
                Some(b) => {
                    let mut c = copy_ids(b);
                    c.push(id);
                    c
                },
                None => {
                    let mut c = Vec::<usize>::new();
                    c.push(id);
                    c
                },
            };
            let ghost pre = *self;
            self.buckets.insert(key, updated);
            proof {
                Self::lemma_table_bucket_push(old_rows, row@, t as int, s);
                assert(pre.bucket(t as int, s) == table_bucket(old_rows, t as int, s));
                assert(updated@ =~= table_bucket(old_rows, t as int, s).push(id));
                assert(self.bucket(t as int, s) =~= table_bucket(new_rows, t as int, s));
                assert forall|tt: int, ss: u64|
                    0 <= tt < self.n_tables && !(tt == t as int && ss == s) implies #[trigger] self
                    .bucket(tt, ss) == pre.bucket(tt, ss) by {
                    Self::lemma_bucket_key_injective(tt, ss, t as int, s);
                    assert(Self::bucket_key(tt, ss) != key);
                }
                assert forall|tt: int, ss: u64|
                    0 <= tt < self.n_tables implies #[trigger] self.bucket(tt, ss) == if tt < t
                    + 1 {
                    table_bucket(new_rows, tt, ss)
                } else {
                    table_bucket(old_rows, tt, ss)
                } by {
                    if tt == t as int && ss != s {
                        Self::lemma_table_bucket_push(old_rows, row@, t as int, ss);
                    }
                }
            }
            t += 1;
        }
        proof {
            assert forall|i: int| 0 <= i < self.sig_rows@.len() implies (
            #[trigger] self.sig_rows@[i]).len() == self.n_tables by {
                if i < old_rows.len() {
                    assert(old(self).sig_rows@[i].len() == old(self).n_tables);
                }
            }
            assert forall|i: int| 0 <= i < self.store@.len() implies (
            #[trigger] self.store@[i])@.len() == self.dim by {
                assert(self.vectors()[i] == self.store@[i]@);
                if i < id {
                    assert(old(self).vectors()[i] == old(self).store@[i]@);
                    assert(old(self).store@[i]@.len() == old(self).dim);
                }
            }
            assert(self.vectors() =~= old(self).vectors().push(v@));
            assert(self.sig_history() =~= old(self).sig_history().push(row@));
        }
    }

    /// Stores a batch of vectors, each with its signature row. The batch is
    /// atomic: when any vector's length differs from the index dimension,
    /// nothing is inserted and the whole batch fails with `DimMismatch`.
    pub fn store_vecs(&mut self, vecs: &Vec<Vec<u32>>, rows: &Vec<Vec<u64>>) -> (result: Result<
        (),
        ApiError,
    >)
        requires
            old(self).wf(),
            old(self).len_spec() + vecs@.len() <= usize::MAX,
            vecs@.len() == rows@.len(),
            forall|j: int|
                0 <= j < rows@.len() ==> (#[trigger] rows@[j])@.len() == old(self).table_count(),
        ensures
            final(self).wf(),
            final(self).table_count() == old(self).table_count(),
            final(self).dimension() == old(self).dimension(),
            final(self).projection_count() == old(self).projection_count(),
            match result {
                Ok(()) => {
                    &&& forall|j: int|
                        0 <= j < vecs@.len() ==> (#[trigger] vecs@[j])@.len() == old(
                            self,
                        ).dimension()
                    &&& final(self).vectors() == old(self).vectors() + vecs@.map_values(
                        |v: Vec<u32>| v@,
                    )
                    &&& final(self).sig_history() == old(self).sig_history() + rows@.map_values(
                        |r: Vec<u64>| r@,
                    )
                },
                Err(e) => {
                    &&& e is DimMismatch
                    &&& exists|j: int|
                        0 <= j < vecs@.len() && (#[trigger] vecs@[j])@.len() != old(
                            self,
                        ).dimension()
                    &&& *final(self) == *old(self)
                },
            },
    {
        let mut j: usize = 0;
        while j < vecs.len()
            invariant
                *self == *old(self),
                old(self).wf(),
                j <= vecs@.len(),
                forall|k: int|
                    0 <= k < j ==> (#[trigger] vecs@[k])@.len() == old(self).dimension(),
            decreases vecs@.len() - j,
        {
            if vecs[j].len() != self.dim {
                proof {
                    assert(self.wf());
                    assert(vecs@[j as int]@.len() != old(self).dimension());
                }
                return Err(
                    ApiError::DimMismatch(
                        "vector length does not match the index dimension".to_owned(),
                    ),
                );
            }
            j += 1;
        }
        let mut j: usize = 0;
        while j < vecs.len()
            invariant
                self.wf(),
                j <= vecs@.len(),
                vecs@.len() == rows@.len(),
                old(self).len_spec() + vecs@.len() <= usize::MAX,
                self.vectors() =~= old(self).vectors() + vecs@.map_values(|v: Vec<u32>| v@).take(
                    j as int,
                ),
                self.sig_history() =~= old(self).sig_history() + rows@.map_values(
                    |r: Vec<u64>| r@,
                ).take(j as int),
                self.len_spec() == old(self).len_spec() + j,
                self.table_count() == old(self).table_count(),
                self.dimension() == old(self).dimension(),
                self.projection_count() == old(self).projection_count(),
                forall|k: int|
                    0 <= k < vecs@.len() ==> (#[trigger] vecs@[k])@.len() == old(self).dimension(),
                forall|k: int|
                    0 <= k < rows@.len() ==> (#[trigger] rows@[k])@.len() == old(
                        self,
                    ).table_count(),
            decreases vecs@.len() - j,
        {
            let ghost pre_vectors = self.vectors();
            let ghost pre_rows = self.sig_history();
            self.insert_one(&vecs[j], &rows[j]);
            proof {
                assert(self.vectors() =~= old(self).vectors() + vecs@.map_values(
                    |v: Vec<u32>| v@,
                ).take(j + 1));
                assert(self.sig_history() =~= old(self).sig_history() + rows@.map_values(
                    |r: Vec<u64>| r@,
                ).take(j + 1));
            }
            j += 1;
        }
        proof {
            assert(vecs@.map_values(|v: Vec<u32>| v@).take(vecs@.len() as int) =~= vecs@.map_values(
                |v: Vec<u32>| v@,
            ));
            assert(rows@.map_values(|r: Vec<u64>| r@).take(rows@.len() as int) =~= rows@.map_values(
                |r: Vec<u64>| r@,
            ));
        }
        Ok(())
    }

    /// The number of stored vectors; the next insertion gets this internal
    /// index.
    pub fn len(&self) -> (n: usize)
        ensures
            n == self.len_spec(),
    {
        self.store.len()
    }

    pub fn table_count_exec(&self) -> (n: usize)
        ensures
            n == self.table_count(),
    {
        self.n_tables
    }

    pub fn dimension_exec(&self) -> (n: usize)
        ensures
            n == self.dimension(),
    {
        self.dim
    }

    pub fn projection_count_exec(&self) -> (n: usize)
        ensures
            n == self.projection_count(),
    {
        self.n_projections
    }

    /// Collects the union of the buckets the query row selects, one bucket
    /// per table, deduplicated in first-seen order (lower table first, then
    /// insertion order), truncated to the first `n_results`.
    pub fn query_bucket_ids(&self, qrow: &Vec<u64>, n_results: usize) -> (ids: Vec<usize>)
        requires
            self.wf(),
            qrow@.len() == self.table_count(),
        ensures
            ids@ == spec_query_ids(
                self.sig_history(),
                qrow@,
                self.table_count() as int,
                n_results as nat,
            ),
    {
        let ghost rows = self.sig_history();
        let mut ids: Vec<usize> = Vec::new();
        let mut t: usize = 0;
        while t < self.n_tables
            invariant
                self.wf(),
                rows == self.sig_history(),
                qrow@.len() == self.table_count(),
                t <= self.n_tables,
                ids@ == dedup_first_seen(candidate_ids(rows, qrow@, t as int)),
            decreases self.n_tables - t,
        {
            let s = qrow[t];
            let key = bucket_key_exec(t, s);
            let ghost bucket = table_bucket(rows, t as int, s);
            let ghost base = candidate_ids(rows, qrow@, t as int);
            match self.buckets.get(&key) {
                Some(b) => {
                    proof {
                        assert(self.bucket(t as int, s) == bucket);
                        assert(b@ == bucket);
                    }
                    let mut k: usize = 0;
                    while k < b.len()
                        invariant
                            k <= b@.len(),
                            b@ == bucket,
                            ids@ == dedup_first_seen(base + bucket.take(k as int)),
                        decreases b@.len() - k,
                    {
                        let id = b[k];
                        proof {
                            assert((base + bucket.take(k + 1)).drop_last() =~= base + bucket.take(
                                k as int,
                            ));
                            assert((base + bucket.take(k + 1)).last() == id);
                        }
                        if !contains_id(&ids, id) {
                            ids.push(id);
                        }
                        k += 1;
                    }
                    proof {
                        assert(base + bucket.take(b@.len() as int) =~= candidate_ids(
                            rows,
                            qrow@,
                            t + 1,
                        ));
                    }
                },
                None => {
                    proof {
                        assert(self.bucket(t as int, s) == bucket);
                        assert(bucket.len() == 0);
                        assert(base + bucket =~= base);
                        assert(base =~= candidate_ids(rows, qrow@, t + 1));
                    }
                },
            }
            t += 1;
        }
        if ids.len() > n_results {
            ids.truncate(n_results);
            proof {
                let all = dedup_first_seen(candidate_ids(rows, qrow@, self.table_count() as int));
                assert(ids@ =~= take_at_most(all, n_results as nat));
            }
        }
        ids
    }

    /// Dereferences a bucket query through the store: the candidate vectors
    /// for `q`, in first-seen bucket order. Fails with `DimMismatch` — and
    /// only then — when `q` does not have the index dimension.
    pub fn query_bucket_vectors(&self, q: &Vec<u32>, qrow: &Vec<u64>, n_results: usize) -> (result:
        Result<Vec<Vec<u32>>, ApiError>)
        requires
            self.wf(),
            qrow@.len() == self.table_count(),
        ensures
            match result {
                Ok(found) => {
                    let ids = spec_query_ids(
                        self.sig_history(),
                        qrow@,
                        self.table_count() as int,
                        n_results as nat,
                    );
                    &&& q@.len() == self.dimension()
                    &&& found@.len() == ids.len()
                    &&& forall|k: int|
                        0 <= k < ids.len() ==> (#[trigger] found@[k])@ == self.vectors()[ids[k] as int]
                },
                Err(e) => {
                    &&& e is DimMismatch
                    &&& q@.len() != self.dimension()
                },
            },
    {
        if q.len() != self.dim {
            return Err(
                ApiError::DimMismatch(
                    "query vector length does not match the index dimension".to_owned(),
                ),
            );
        }
        let ids = self.query_bucket_ids(qrow, n_results);
        proof {
            lemma_candidate_ids_elements(
                self.sig_history(),
                qrow@,
                self.table_count() as int,
            );
            lemma_dedup_membership(
                candidate_ids(self.sig_history(), qrow@, self.table_count() as int),
            );
            assert forall|k: int| 0 <= k < ids@.len() implies #[trigger] ids@[k]
                < self.store@.len() by {
                let all = candidate_ids(self.sig_history(), qrow@, self.table_count() as int);
                let deduped = dedup_first_seen(all);
                assert(deduped.contains(ids@[k]));
                let j = choose|j: int| 0 <= j < all.len() && all[j] == ids@[k];
            }
        }
        let mut found: Vec<Vec<u32>> = Vec::new();
        let mut k: usize = 0;
        while k < ids.len()
            invariant
                k <= ids@.len(),
                found@.len() == k,
                forall|kk: int| 0 <= kk < ids@.len() ==> #[trigger] ids@[kk] < self.store@.len(),
                forall|kk: int|
                    0 <= kk < k ==> (#[trigger] found@[kk])@ == self.store@[ids@[kk] as int]@,
            decreases ids@.len() - k,
        {
            let id = ids[k];
            found.push(copy_words(&self.store[id]));
            k += 1;
        }
        proof {
            assert forall|kk: int| 0 <= kk < ids@.len() implies (#[trigger] found@[kk])@
                == self.vectors()[ids@[kk] as int] by {
                assert(self.vectors()[ids@[kk] as int] == self.store@[ids@[kk] as int]@);
            }
        }
        Ok(found)
    }
}

/// Membership in a first-seen deduplication is membership in the original
/// sequence.
proof fn lemma_dedup_membership(s: Seq<usize>)
    ensures
        forall|x: usize| #[trigger]
            dedup_first_seen(s).contains(x) <==> s.contains(x),
    decreases s.len(),
{
    if s.len() == 0 {
    } else {
        lemma_dedup_membership(s.drop_last());
        let prev = dedup_first_seen(s.drop_last());
        let whole = dedup_first_seen(s);
        assert forall|x: usize| #[trigger] whole.contains(x) <==> s.contains(x) by {
            if whole.contains(x) {
                if prev.contains(x) {
                    assert(s.drop_last().contains(x));
                    let k = choose|k: int|
                        0 <= k < s.drop_last().len() && s.drop_last()[k] == x;
                    assert(s[k] == x);
                } else {
                    let k = choose|k: int| 0 <= k < whole.len() && whole[k] == x;
                    assert(x == s.last());
                    assert(s[s.len() - 1] == x);
                }
            }
            if s.contains(x) {
                let k = choose|k: int| 0 <= k < s.len() && s[k] == x;
                if k < s.len() - 1 {
                    assert(s.drop_last()[k] == x);
                    assert(s.drop_last().contains(x));
                    if whole == prev.push(s.last()) {
                        if prev.contains(x) {
                            let j = choose|j: int| 0 <= j < prev.len() && prev[j] == x;
                            assert(whole[j] == x);
                        }
                    }
                } else {
                    assert(x == s.last());
                    if prev.contains(x) {
                        if whole == prev {
                        } else {
                            let j = choose|j: int| 0 <= j < prev.len() && prev[j] == x;
                            assert(whole[j] == x);
                        }
                    } else {
                        assert(whole == prev.push(x));
                        assert(whole.last() == x);
                    }
                }
            }
        }
    }
}

/// A first-seen deduplication has no duplicates.
proof fn lemma_dedup_no_duplicates(s: Seq<usize>)
    ensures
        dedup_first_seen(s).no_duplicates(),
    decreases s.len(),
{
    if s.len() == 0 {
    } else {
        lemma_dedup_no_duplicates(s.drop_last());
        let prev = dedup_first_seen(s.drop_last());
        if !prev.contains(s.last()) {
            assert forall|i: int, j: int|
                0 <= i < j < prev.push(s.last()).len() implies prev.push(s.last())[i] != prev.push(
                s.last(),
            )[j] by {
                if j < prev.len() {
                } else {
                    assert(prev.push(s.last())[j] == s.last());
                    assert(prev.push(s.last())[i] == prev[i]);
                    assert(!prev.contains(s.last()));
                }
            }
        }
    }
}

/// Whatever a bucket of a selected table holds is among the query's
/// candidates.
proof fn lemma_candidate_ids_contains_bucket(
    rows: Seq<Seq<u64>>,
    qrow: Seq<u64>,
    t: int,
    tables: int,
)
    requires
        0 <= t < tables,
    ensures
        forall|x: usize|
            table_bucket(rows, t, qrow[t]).contains(x) ==> #[trigger] candidate_ids(
                rows,
                qrow,
                tables,
            ).contains(x),
    decreases tables,
{
    let head = candidate_ids(rows, qrow, tables - 1);
    let tail = table_bucket(rows, tables - 1, qrow[tables - 1]);
    if t == tables - 1 {
        assert forall|x: usize|
            table_bucket(rows, t, qrow[t]).contains(x) implies #[trigger] candidate_ids(
            rows,
            qrow,
            tables,
        ).contains(x) by {
            let k = choose|k: int| 0 <= k < tail.len() && tail[k] == x;
            assert(candidate_ids(rows, qrow, tables)[head.len() + k] == x);
        }
    } else {
        lemma_candidate_ids_contains_bucket(rows, qrow, t, tables - 1);
        assert forall|x: usize|
            table_bucket(rows, t, qrow[t]).contains(x) implies #[trigger] candidate_ids(
            rows,
            qrow,
            tables,
        ).contains(x) by {
            assert(head.contains(x));
            let k = choose|k: int| 0 <= k < head.len() && head[k] == x;
            assert(candidate_ids(rows, qrow, tables)[k] == x);
        }
    }
}

/// Every candidate is the internal index of a stored vector.
proof fn lemma_candidate_ids_elements(rows: Seq<Seq<u64>>, qrow: Seq<u64>, tables: int)
    requires
        rows.len() <= usize::MAX,
    ensures
        forall|k: int|
            0 <= k < candidate_ids(rows, qrow, tables).len() ==> #[trigger] candidate_ids(
                rows,
                qrow,
                tables,
            )[k] < rows.len(),
    decreases tables,
{
    if tables <= 0 {
    } else {
        lemma_candidate_ids_elements(rows, qrow, tables - 1);
        LshIndex::lemma_table_bucket_membership(rows, tables - 1, qrow[tables - 1]);
        let head = candidate_ids(rows, qrow, tables - 1);
        let tail = table_bucket(rows, tables - 1, qrow[tables - 1]);
        assert forall|k: int|
            0 <= k < candidate_ids(rows, qrow, tables).len() implies #[trigger] candidate_ids(
            rows,
            qrow,
            tables,
        )[k] < rows.len() by {
            if k < head.len() {
            } else {
                assert(tail.contains(tail[k - head.len()]));
            }
        }
    }
}

/// A duplicate-free sequence of indices below `m` has at most `m` elements.
proof fn lemma_distinct_bounded(s: Seq<usize>, m: nat)
    requires
        s.no_duplicates(),
        forall|k: int| 0 <= k < s.len() ==> (#[trigger] s[k]) < m,
    ensures
        s.len() <= m,
{
    broadcast use vstd::seq_lib::group_seq_properties;
    broadcast use vstd::set_lib::group_set_properties;

    let f = |u: usize| u as int;
    let si = s.map_values(f);
    assert(vstd::relations::injective(f));
    s.lemma_no_duplicates_injective(f);
    si.unique_seq_to_set();
    assert(si.to_set().subset_of(vstd::set_lib::set_int_range(0, m as int))) by {
        assert forall|x: int| si.to_set().contains(x) implies vstd::set_lib::set_int_range(
            0,
            m as int,
        ).contains(x) by {
            assert(si.contains(x));
            let k = choose|k: int| 0 <= k < si.len() && si[k] == x;
            assert(si[k] == f(s[k]));
        }
    }
    vstd::set_lib::lemma_int_range(0, m as int);
    vstd::set_lib::lemma_len_subset(si.to_set(), vstd::set_lib::set_int_range(0, m as int));
}

/// Every stored vector sits in the bucket its own signature selects, in every
/// table: looking the vector's signature row up again always finds it.
pub proof fn lemma_stored_in_own_bucket(index: &LshIndex, i: int, t: int)
    requires
        index.wf(),
        0 <= i < index.len_spec(),
        0 <= t < index.table_count(),
    ensures
        index.bucket(t, index.sig_history()[i][t]).contains(i as usize),
{
    LshIndex::lemma_table_bucket_membership(index.sig_history(), t, index.sig_history()[i][t]);
    assert(table_bucket(index.sig_history(), t, index.sig_history()[i][t]).contains(i as usize));
}

/// Two insertions of the same signature row land in the same bucket of every
/// table, under their two distinct internal indices.
pub proof fn lemma_equal_rows_share_buckets(index: &LshIndex, i: int, j: int)
    requires
        index.wf(),
        0 <= i < index.len_spec(),
        0 <= j < index.len_spec(),
        i != j,
        index.sig_history()[i] == index.sig_history()[j],
    ensures
        forall|t: int|
            0 <= t < index.table_count() ==> #[trigger] index.bucket(
                t,
                index.sig_history()[i][t],
            ).contains(i as usize),
        forall|t: int|
            0 <= t < index.table_count() ==> #[trigger] index.bucket(
                t,
                index.sig_history()[i][t],
            ).contains(j as usize),
{
    assert forall|t: int| 0 <= t < index.table_count() implies #[trigger] index.bucket(
        t,
        index.sig_history()[i][t],
    ).contains(i as usize) by {
        lemma_stored_in_own_bucket(index, i, t);
    }
    assert forall|t: int| 0 <= t < index.table_count() implies #[trigger] index.bucket(
        t,
        index.sig_history()[i][t],
    ).contains(j as usize) by {
        lemma_stored_in_own_bucket(index, j, t);
        assert(index.sig_history()[i][t] == index.sig_history()[j][t]);
    }
}

/// The bucket structure is a function of the insertion history alone: two
/// well-formed indexes with the same history and table count agree on every
/// bucket of every table.
pub proof fn lemma_bucket_state_determined(a: &LshIndex, b: &LshIndex)
    requires
        a.wf(),
        b.wf(),
        a.sig_history() == b.sig_history(),
        a.table_count() == b.table_count(),
    ensures
        forall|t: int, s: u64| 0 <= t < a.table_count() ==> #[trigger] a.bucket(t, s) == b.bucket(
            t,
            s,
        ),
{
}

/// A query that was handed the signature row a vector was stored with finds
/// that vector's internal index, whenever the candidate cap admits the whole
/// store.
pub proof fn lemma_query_contains_stored(index: &LshIndex, i: int, n: nat)
    requires
        index.wf(),
        0 <= i < index.len_spec(),
        1 <= index.table_count(),
        n >= index.len_spec(),
    ensures
        spec_query_ids(
            index.sig_history(),
            index.sig_history()[i],
            index.table_count() as int,
            n,
        ).contains(i as usize),
{
    let rows = index.sig_history();
    let qrow = rows[i];
    let tables = index.table_count() as int;
    let all = candidate_ids(rows, qrow, tables);
    let deduped = dedup_first_seen(all);
    LshIndex::lemma_table_bucket_membership(rows, 0, qrow[0]);
    assert(table_bucket(rows, 0, qrow[0]).contains(i as usize));
    lemma_candidate_ids_contains_bucket(rows, qrow, 0, tables);
    assert(all.contains(i as usize));
    lemma_dedup_membership(all);
    assert(deduped.contains(i as usize));
    lemma_dedup_no_duplicates(all);
    lemma_candidate_ids_elements(rows, qrow, tables);
    assert forall|k: int| 0 <= k < deduped.len() implies (#[trigger] deduped[k])
        < rows.len() by {
        assert(deduped.contains(deduped[k]));
        assert(all.contains(deduped[k]));
        let j = choose|j: int| 0 <= j < all.len() && all[j] == deduped[k];
    }
    lemma_distinct_bounded(deduped, rows.len());
    if n <= deduped.len() {
        assert(n == deduped.len());
        assert(deduped.take(n as int) =~= deduped);
    }
}

/// What the previous law means for `query_bucket_vectors`: among the ids a
/// generous query returns stands one that dereferences to the stored vector
/// itself.
pub proof fn lemma_query_vectors_contain_stored(index: &LshIndex, i: int, n: nat)
    requires
        index.wf(),
        0 <= i < index.len_spec(),
        1 <= index.table_count(),
        n >= index.len_spec(),
    ensures
        ({
            let ids = spec_query_ids(
                index.sig_history(),
                index.sig_history()[i],
                index.table_count() as int,
                n,
            );
            exists|k: int|
                0 <= k < ids.len() && index.vectors()[#[trigger] ids[k] as int]
                    == index.vectors()[i]
        }),
{
    lemma_query_contains_stored(index, i, n);
    let ids = spec_query_ids(
        index.sig_history(),
        index.sig_history()[i],
        index.table_count() as int,
        n,
    );
    let k = choose|k: int| 0 <= k < ids.len() && ids[k] == i as usize;
    assert(ids[k] as int == i);
}

/// A candidate cap of zero yields an empty result.
pub proof fn lemma_zero_cap_empty(rows: Seq<Seq<u64>>, qrow: Seq<u64>, tables: int)
    ensures
        spec_query_ids(rows, qrow, tables, 0) == Seq::<usize>::empty(),
{
    assert(dedup_first_seen(candidate_ids(rows, qrow, tables)).take(0) =~= Seq::<usize>::empty());
}

/// Copies a vector of words.
pub(crate) fn copy_words(v: &Vec<u32>) -> (r: Vec<u32>)
    ensures
        r@ == v@,
{
    let mut r: Vec<u32> = Vec::new();
    let mut i: usize = 0;
    while i < v.len()
        invariant
            i <= v@.len(),
            r@ == v@.take(i as int),
        decreases v@.len() - i,
    {
        r.push(v[i]);
        proof {
            assert(r@ =~= v@.take(i + 1));
        }
        i += 1;
    }
    proof {
        assert(v@.take(v@.len() as int) =~= v@);
    }
    r
}

/// Copies a signature row.
pub(crate) fn copy_sig_row(v: &Vec<u64>) -> (r: Vec<u64>)
    ensures
        r@ == v@,
{
    let mut r: Vec<u64> = Vec::new();
    let mut i: usize = 0;
    while i < v.len()
        invariant
            i <= v@.len(),
            r@ == v@.take(i as int),
        decreases v@.len() - i,
    {
        r.push(v[i]);
        proof {
            assert(r@ =~= v@.take(i + 1));
        }
        i += 1;
    }
    proof {
        assert(v@.take(v@.len() as int) =~= v@);
    }
    r
}

/// Copies a bucket of internal indices.
fn copy_ids(v: &Vec<usize>) -> (r: Vec<usize>)
    ensures
        r@ == v@,
{
    let mut r: Vec<usize> = Vec::new();
    let mut i: usize = 0;
    while i < v.len()
        invariant
            i <= v@.len(),
            r@ == v@.take(i as int),
        decreases v@.len() - i,
    {
        r.push(v[i]);
        proof {
            assert(r@ =~= v@.take(i + 1));
        }
        i += 1;
    }
    proof {
        assert(v@.take(v@.len() as int) =~= v@);
    }
    r
}

/// Whether a bucket already holds an internal index.
fn contains_id(v: &Vec<usize>, x: usize) -> (r: bool)
    ensures
        r == v@.contains(x),
{
    let mut i: usize = 0;
    while i < v.len()
        invariant
            i <= v@.len(),
            forall|k: int| 0 <= k < i ==> v@[k] != x,
        decreases v@.len() - i,
    {
        if v[i] == x {
            return true;
        }
        i += 1;
    }
    false
}

/// The exec counterpart of `LshIndex::bucket_key`.
fn bucket_key_exec(t: usize, s: u64) -> (k: u128)
    ensures
        k == LshIndex::bucket_key(t as int, s),
{
    proof {
        assert(t as u128 <= 0xffff_ffff_ffff_ffffu128);
    }
    (t as u128) * 0x1_0000_0000_0000_0000u128 + (s as u128)
}

} // verus!
