use vstd::prelude::*;

verus! {

/// Errors raised by the persistent record of applied versions.
#[derive(Clone, Copy, PartialEq, Eq, Structural, Debug)]
pub enum StoreError {
    /// The underlying connection could not read or write the bookkeeping
    /// table. Constructed by the embedding application at the I/O edge;
    /// nothing inside the engine produces it.
    StoreUnavailable,
    /// The version was already recorded: either a concurrent run won the
    /// race, or the bookkeeping rows handed in were corrupt.
    DuplicateVersion(u64),
}

/// The first version that repeats an earlier row, scanning left to right;
/// `None` when every row is distinct.
pub open spec fn first_repeat(rows: Seq<u64>) -> Option<u64>
    decreases rows.len(),
{
    if rows.len() == 0 {
        None
    } else {
        match first_repeat(rows.drop_last()) {
            Some(v) => Some(v),
            None => if rows.drop_last().contains(rows.last()) {
                Some(rows.last())
            } else {
                None
            },
        }
    }
}

/// A repeat found in a prefix of the rows is the first repeat of the whole.
proof fn lemma_first_repeat_extends(rows: Seq<u64>, k: int)
    requires
        0 <= k <= rows.len(),
        first_repeat(rows.take(k)) is Some,
    ensures
        first_repeat(rows) == first_repeat(rows.take(k)),
    decreases rows.len(),
{
    if k < rows.len() {
        assert(rows.drop_last().take(k) =~= rows.take(k));
        lemma_first_repeat_extends(rows.drop_last(), k);
    } else {
        assert(rows.take(k) =~= rows);
    }
}

/// In-memory image of the bookkeeping table: the versions whose migration
/// bodies have fully executed and been durably committed, in recording order.
///
/// Rows are only ever added, never updated or deleted, mirroring the table's
/// lifecycle. The embedding application reads the table at startup, builds
/// the image with `from_rows`, and writes each new row alongside the
/// migration body it records.
pub struct VersionStore {
    applied: Vec<u64>,
}

impl View for VersionStore {
    type V = Seq<u64>;

    closed spec fn view(&self) -> Seq<u64> {
        self.applied@
    }
}

/// Linear scan for a version among recorded rows.
fn vec_contains(v: &Vec<u64>, x: u64) -> (r: bool)
    ensures
        r == v@.contains(x),
{
    let mut i: usize = 0;
    while i < v.len()
        invariant
            0 <= i <= v@.len(),
            forall|k: int| 0 <= k < i ==> v@[k] != x,
        decreases v@.len() - i,
    {
        if v[i] == x {
            assert(v@[i as int] == x);
            return true;
        }
        i += 1;
    }
    assert(!v@.contains(x));
    false
}

impl VersionStore {
    /// No version is recorded twice.
    pub open spec fn wf(self) -> bool {
        forall|i: int, j: int| 0 <= i < j < self@.len() ==> self@[i] != self@[j]
    }

    /// A freshly bootstrapped store: the bookkeeping table exists and holds
    /// no rows.
    pub fn new() -> (s: Self)
        ensures
            s@ == Seq::<u64>::empty(),
            s.wf(),
    {
        VersionStore { applied: Vec::new() }
    }

    /// Rebuilds the image from rows read out of an existing bookkeeping
    /// table. A repeated version means the table is corrupt; the first
    /// repeat is reported and nothing is kept.
    pub fn from_rows(rows: Vec<u64>) -> (r: Result<Self, StoreError>)
        ensures
            match r {
                Ok(s) => first_repeat(rows@) is None && s@ == rows@ && s.wf(),
                Err(e) => first_repeat(rows@) matches Some(v) && e == StoreError::DuplicateVersion(
                    v,
                ),
            },
    {
        let mut applied: Vec<u64> = Vec::new();
        let mut i: usize = 0;
        while i < rows.len()
            invariant
                0 <= i <= rows@.len(),
                applied@ == rows@.take(i as int),
                first_repeat(rows@.take(i as int)) is None,
                forall|p: int, q: int| 0 <= p < q < i ==> rows@[p] != rows@[q],
            decreases rows@.len() - i,
        {
            let v = rows[i];
            proof {
                assert(rows@.take(i + 1 as int).drop_last() =~= rows@.take(i as int));
                assert(rows@.take(i + 1 as int).last() == rows@[i as int]);
            }
            if vec_contains(&applied, v) {
                proof {
                    assert(first_repeat(rows@.take(i + 1)) == Some(v));
                    lemma_first_repeat_extends(rows@, i + 1);
                }
                return Err(StoreError::DuplicateVersion(v));
            }
            proof {
                assert forall|p: int| 0 <= p < i implies rows@[p] != rows@[i as int] by {
                    if rows@[p] == rows@[i as int] {
                        assert(applied@[p] == rows@[p]);
                        assert(applied@.contains(rows@[i as int]));
                    }
                }
            }
            applied.push(v);
            proof {
                assert(applied@ =~= rows@.take(i + 1 as int));
            }
            i += 1;
        }
        proof {
            assert(rows@.take(rows@.len() as int) =~= rows@);
        }
        Ok(VersionStore { applied })
    }

    /// The recorded versions, in recording order.
    pub fn applied_versions(&self) -> (r: &Vec<u64>)
        ensures
            r@ == self@,
    {
        &self.applied
    }

    /// How many versions are recorded.
    pub fn count(&self) -> (r: usize)
        ensures
            r == self@.len(),
    {
        self.applied.len()
    }

    /// Whether `v` is recorded as applied.
    pub fn contains(&self, v: u64) -> (r: bool)
        ensures
            r == self@.contains(v),
    {
        vec_contains(&self.applied, v)
    }

    /// Records `v` as applied. The caller commits this row in the same
    /// transactional scope as the migration body it records; a version that
    /// is already present signals a lost race with a concurrent run and is
    /// reported, never overwritten.
    pub fn record_applied(&mut self, v: u64) -> (r: Result<(), StoreError>)
        requires
            old(self).wf(),
        ensures
            final(self).wf(),
            match r {
                Ok(()) => !old(self)@.contains(v) && final(self)@ == old(self)@.push(v),
                Err(e) => old(self)@.contains(v) && e == StoreError::DuplicateVersion(v)
                    && final(self)@ == old(self)@,
            },
    {
        if vec_contains(&self.applied, v) {
            Err(StoreError::DuplicateVersion(v))
        } else {
            self.applied.push(v);
            proof {
                assert forall|i: int, j: int|
                    0 <= i < j < self@.len() implies self@[i] != self@[j] by {
                    if j < self@.len() - 1 {
                        assert(self@[i] == old(self)@[i]);
                        assert(self@[j] == old(self)@[j]);
                    } else {
                        assert(self@[j] == v);
                        if self@[i] == v {
                            assert(old(self)@[i] == v);
                            assert(old(self)@.contains(v));
                        }
                    }
                }
            }
            Ok(())
        }
    }
}

} // verus!
