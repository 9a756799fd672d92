use vstd::prelude::*;
use crate::descriptor::MigrationDescriptor;

verus! {

/// Errors detected while validating a registry, before any store access.
#[derive(Clone, Copy, PartialEq, Eq, Structural, Debug)]
pub enum ValidationError {
    /// Two descriptors share this version.
    DuplicateVersion(u64),
    /// A descriptor carries this version, which is not positive.
    InvalidVersion(u64),
}

/// The versions of a sequence of descriptors, in the same order.
pub open spec fn versions_of(s: Seq<MigrationDescriptor>) -> Seq<u64> {
    s.map_values(|d: MigrationDescriptor| d.version)
}

/// Versions strictly increase along the sequence of descriptors.
pub open spec fn sorted_strict(s: Seq<MigrationDescriptor>) -> bool {
    forall|i: int, j: int| 0 <= i < j < s.len() ==> s[i].version < s[j].version
}

/// A sequence of versions strictly increases.
pub open spec fn ascending(s: Seq<u64>) -> bool {
    forall|i: int, j: int| 0 <= i < j < s.len() ==> s[i] < s[j]
}

/// The first validation defect, scanning the descriptors left to right:
/// a non-positive version is reported as such, a version already seen as a
/// duplicate. `None` when the input is a valid registry.
pub open spec fn first_defect(s: Seq<MigrationDescriptor>) -> Option<ValidationError>
    decreases s.len(),
{
    if s.len() == 0 {
        None
    } else {
        match first_defect(s.drop_last()) {
            Some(e) => Some(e),
            None => {
                let d = s.last();
                if d.version == 0 {
                    Some(ValidationError::InvalidVersion(d.version))
                } else if versions_of(s.drop_last()).contains(d.version) {
                    Some(ValidationError::DuplicateVersion(d.version))
                } else {
                    None
                }
            },
        }
    }
}

/// A version occurs among descriptors exactly when one of them carries it.
pub proof fn lemma_versions_contains(s: Seq<MigrationDescriptor>, v: u64)
    ensures
        versions_of(s).contains(v) <==> exists|k: int|
            0 <= k < s.len() && #[trigger] s[k].version == v,
{
    if exists|k: int| 0 <= k < s.len() && #[trigger] s[k].version == v {
        let k = choose|k: int| 0 <= k < s.len() && #[trigger] s[k].version == v;
        assert(versions_of(s)[k] == v);
    }
    if versions_of(s).contains(v) {
        let k = choose|k: int| 0 <= k < versions_of(s).len() && versions_of(s)[k] == v;
        assert(s[k].version == v);
    }
}

/// A defect found in a prefix of the input is the first defect of the whole.
proof fn lemma_first_defect_extends(s: Seq<MigrationDescriptor>, k: int)
    requires
        0 <= k <= s.len(),
        first_defect(s.take(k)) is Some,
    ensures
        first_defect(s) == first_defect(s.take(k)),
    decreases s.len(),
{
    if k < s.len() {
        assert(s.drop_last().take(k) =~= s.take(k));
        lemma_first_defect_extends(s.drop_last(), k);
    } else {
        assert(s.take(k) =~= s);
    }
}

/// Inserting an element preserves and adds the expected memberships.
proof fn lemma_insert_contains(s: Seq<MigrationDescriptor>, j: int, d: MigrationDescriptor)
    requires
        0 <= j <= s.len(),
    ensures
        forall|x: MigrationDescriptor| s.contains(x) ==> #[trigger] s.insert(j, d).contains(x),
        s.insert(j, d).contains(d),
        forall|x: MigrationDescriptor| #[trigger] s.insert(j, d).contains(x) ==> x == d
            || s.contains(x),
{
    s.insert_ensures(j, d);
    assert forall|x: MigrationDescriptor| s.contains(x) implies #[trigger] s.insert(
        j,
        d,
    ).contains(x) by {
        let m = choose|m: int| 0 <= m < s.len() && s[m] == x;
        if m < j {
            assert(s.insert(j, d)[m] == x);
        } else {
            assert(s.insert(j, d)[m + 1] == x);
        }
    }
    assert(s.insert(j, d)[j] == d);
    assert forall|x: MigrationDescriptor| #[trigger] s.insert(j, d).contains(x) implies x == d
        || s.contains(x) by {
        let m = choose|m: int| 0 <= m < s.insert(j, d).len() && s.insert(j, d)[m] == x;
        if m < j {
            assert(s[m] == x);
        } else if m > j {
            assert(s[m - 1] == x);
        }
    }
}

/// An ordered, validated collection of migration descriptors: versions are
/// positive and unique, and the entries are kept sorted ascending by version.
/// Immutable after `build`.
pub struct MigrationRegistry {
    entries: Vec<MigrationDescriptor>,
}

impl View for MigrationRegistry {
    type V = Seq<MigrationDescriptor>;

    closed spec fn view(&self) -> Seq<MigrationDescriptor> {
        self.entries@
    }
}

impl MigrationRegistry {
    /// Entries are sorted strictly ascending by version and every version is
    /// positive. `build` establishes this and nothing afterwards can break
    /// it.
    pub open spec fn wf(self) -> bool {
        &&& sorted_strict(self@)
        &&& forall|i: int| 0 <= i < self@.len() ==> #[trigger] self@[i].version >= 1
    }

    /// Validates and orders the given descriptors. Descriptors may arrive in
    /// any order; the registry holds exactly the given descriptors, sorted
    /// ascending by version. The first non-positive or repeated version,
    /// scanning the input left to right, is reported and nothing is built.
    pub fn build(descs: Vec<MigrationDescriptor>) -> (r: Result<Self, ValidationError>)
        ensures
            match r {
                Ok(reg) => {
                    &&& first_defect(descs@) is None
                    &&& reg.wf()
                    &&& reg@.len() == descs@.len()
                    &&& forall|k: int| 0 <= k < descs@.len() ==> reg@.contains(#[trigger] descs@[k])
                    &&& forall|k: int| 0 <= k < reg@.len() ==> descs@.contains(#[trigger] reg@[k])
                },
                Err(e) => first_defect(descs@) == Some(e),
            },
    {
        let mut out: Vec<MigrationDescriptor> = Vec::new();
        let mut i: usize = 0;
        while i < descs.len()
            invariant
                0 <= i <= descs@.len(),
                out@.len() == i,
                sorted_strict(out@),
                forall|k: int| 0 <= k < out@.len() ==> #[trigger] out@[k].version >= 1,
                forall|k: int| 0 <= k < i ==> out@.contains(#[trigger] descs@[k]),
                forall|k: int| 0 <= k < out@.len() ==> descs@.take(i as int).contains(
                    #[trigger] out@[k],
                ),
                first_defect(descs@.take(i as int)) is None,
            decreases descs@.len() - i,
        {
            let d = descs[i].clone();
            proof {
                assert(descs@.take(i + 1).drop_last() =~= descs@.take(i as int));
                assert(descs@.take(i + 1).last() == descs@[i as int]);
            }
            if d.version == 0 {
                proof {
                    lemma_first_defect_extends(descs@, i + 1);
                }
                return Err(ValidationError::InvalidVersion(d.version));
            }
            // Find the insertion point that keeps the entries sorted.
            let mut j: usize = 0;
            while j < out.len() && out[j].version < d.version
                invariant
                    0 <= j <= out@.len(),
                    forall|k: int| 0 <= k < j ==> #[trigger] out@[k].version < d.version,
                decreases out@.len() - j,
            {
                j += 1;
            }
            if j < out.len() && out[j].version == d.version {
                proof {
                    assert(descs@.take(i as int).contains(out@[j as int]));
                    lemma_versions_contains(descs@.take(i as int), d.version);
                    lemma_first_defect_extends(descs@, i + 1);
                }
                return Err(ValidationError::DuplicateVersion(d.version));
            }
            proof {
                // No entry carries this version: below the insertion point
                // all versions are smaller, at and above it all are larger.
                assert forall|k: int| 0 <= k < out@.len() implies #[trigger] out@[k].version
                    != d.version by {
                    if k >= j && j < out@.len() {
                        assert(out@[j as int].version <= out@[k].version);
                    }
                }
                lemma_versions_contains(descs@.take(i as int), d.version);
                assert(!versions_of(descs@.take(i as int)).contains(d.version)) by {
                    if exists|k: int| 0 <= k < descs@.take(i as int).len()
                        && #[trigger] descs@.take(i as int)[k].version == d.version {
                        let k = choose|k: int| 0 <= k < descs@.take(i as int).len()
                            && #[trigger] descs@.take(i as int)[k].version == d.version;
                        assert(out@.contains(descs@.take(i as int)[k]));
                    }
                }
                lemma_insert_contains(out@, j as int, d);
                out@.insert_ensures(j as int, d);
            }
            let ghost old_out = out@;
            out.insert(j, d);
            proof {
                assert forall|p: int, q: int|
                    0 <= p < q < out@.len() implies out@[p].version < out@[q].version by {
                    if q < j {
                        assert(out@[p] == old_out[p] && out@[q] == old_out[q]);
                    } else if p > j {
                        assert(out@[p] == old_out[p - 1] && out@[q] == old_out[q - 1]);
                    } else if p < j && q == j {
                        assert(out@[p] == old_out[p]);
                    } else if p == j && q > j {
                        assert(out@[q] == old_out[q - 1]);
                        if j < old_out.len() {
                            assert(old_out[j as int].version <= old_out[q - 1].version);
                        }
                    } else if p < j && q > j {
                        assert(out@[p] == old_out[p] && out@[q] == old_out[q - 1]);
                    }
                }
                assert forall|k: int| 0 <= k < i + 1 implies out@.contains(
                    #[trigger] descs@[k],
                ) by {
                    if k < i {
                        assert(old_out.contains(descs@[k]));
                    } else {
                        assert(out@.contains(d));
                    }
                }
                assert forall|k: int| 0 <= k < out@.len() implies descs@.take(i + 1).contains(
                    #[trigger] out@[k],
                ) by {
                    assert(out@.contains(out@[k]));
                    if out@[k] == d {
                        assert(descs@.take(i + 1)[i as int] == d);
                    } else {
                        assert(old_out.contains(out@[k]));
                        let m = choose|m: int| 0 <= m < old_out.len() && old_out[m] == out@[k];
                        let n = choose|n: int| 0 <= n < descs@.take(i as int).len() && descs@.take(
                            i as int,
                        )[n] == out@[k];
                        assert(descs@.take(i + 1)[n] == out@[k]);
                    }
                }
            }
            i += 1;
        }
        proof {
            assert(descs@.take(descs@.len() as int) =~= descs@);
        }
        Ok(MigrationRegistry { entries: out })
    }

    /// The validated descriptors, sorted ascending by version.
    pub fn ordered(&self) -> (r: &Vec<MigrationDescriptor>)
        ensures
            r@ == self@,
    {
        &self.entries
    }

    /// How many migrations are registered.
    pub fn len(&self) -> (r: usize)
        ensures
            r == self@.len(),
    {
        self.entries.len()
    }

    /// The highest registered version, or `None` for an empty registry.
    pub fn latest(&self) -> (r: Option<u64>)
        ensures
            r is None <==> self@.len() == 0,
            r matches Some(v) ==> self@.len() > 0 && v == self@[self@.len() - 1].version,
            self.wf() && self@.len() > 0 ==> (r matches Some(v) && forall|k: int|
                0 <= k < self@.len() ==> #[trigger] self@[k].version <= v),
    {
        if self.entries.len() == 0 {
            None
        } else {
            Some(self.entries[self.entries.len() - 1].version)
        }
    }
}

} // verus!
