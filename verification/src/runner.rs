use vstd::prelude::*;
use vstd::pervasive::unreached;
use crate::descriptor::MigrationDescriptor;
use crate::registry::MigrationRegistry;
use crate::registry::ascending;
use crate::registry::lemma_versions_contains;
use crate::registry::sorted_strict;
use crate::registry::versions_of;
use crate::store::VersionStore;

verus! {

/// Outcome of one invocation of `run`.
#[derive(PartialEq, Eq, Debug)]
pub enum RunResult {
    /// Nothing was pending; the store was not written.
    NoOp,
    /// Every pending migration was applied; the versions, in the order they
    /// were applied.
    Applied(Vec<u64>),
    /// The body of this version failed with this cause; it and everything
    /// after it were left unapplied.
    Failed(u64, String),
}

/// The registered migrations not yet recorded as applied, keeping the
/// registry's order.
pub open spec fn pending_of(reg: Seq<MigrationDescriptor>, applied: Seq<u64>) -> Seq<
    MigrationDescriptor,
>
    decreases reg.len(),
{
    if reg.len() == 0 {
        Seq::empty()
    } else {
        let init = pending_of(reg.drop_last(), applied);
        if applied.contains(reg.last().version) {
            init
        } else {
            init.push(reg.last())
        }
    }
}

/// Membership in a concatenation is membership in either part.
proof fn lemma_add_contains(a: Seq<u64>, b: Seq<u64>, x: u64)
    ensures
        (a + b).contains(x) <==> a.contains(x) || b.contains(x),
{
    if a.contains(x) {
        let m = choose|m: int| 0 <= m < a.len() && a[m] == x;
        assert((a + b)[m] == x);
    }
    if b.contains(x) {
        let m = choose|m: int| 0 <= m < b.len() && b[m] == x;
        assert((a + b)[a.len() + m] == x);
    }
    if (a + b).contains(x) {
        let m = choose|m: int| 0 <= m < (a + b).len() && (a + b)[m] == x;
        if m < a.len() {
            assert(a[m] == x);
        } else {
            assert(b[m - a.len()] == x);
        }
    }
}

/// Every pending descriptor is a registered one whose version is not yet
/// applied.
proof fn lemma_pending_membership(reg: Seq<MigrationDescriptor>, applied: Seq<u64>)
    ensures
        forall|x: MigrationDescriptor| #[trigger] pending_of(reg, applied).contains(x)
            ==> reg.contains(x) && !applied.contains(x.version),
    decreases reg.len(),
{
    if reg.len() > 0 {
        lemma_pending_membership(reg.drop_last(), applied);
        let p1 = pending_of(reg.drop_last(), applied);
        assert forall|x: MigrationDescriptor| #[trigger] pending_of(reg, applied).contains(
            x,
        ) implies reg.contains(x) && !applied.contains(x.version) by {
            let p = pending_of(reg, applied);
            let m = choose|m: int| 0 <= m < p.len() && p[m] == x;
            if applied.contains(reg.last().version) || m < p1.len() {
                assert(p1[m] == x);
                assert(p1.contains(x));
                let n = choose|n: int| 0 <= n < reg.drop_last().len() && reg.drop_last()[n] == x;
                assert(reg[n] == x);
            } else {
                assert(x == reg.last());
                assert(reg[reg.len() - 1] == x);
            }
        }
    }
}

/// What is pending after seeing a prefix of the registry is a prefix of what
/// is pending for the whole registry.
proof fn lemma_pending_prefix(reg: Seq<MigrationDescriptor>, applied: Seq<u64>, i: int)
    requires
        0 <= i <= reg.len(),
    ensures
        pending_of(reg.take(i), applied).len() <= pending_of(reg, applied).len(),
        pending_of(reg.take(i), applied) == pending_of(reg, applied).take(
            pending_of(reg.take(i), applied).len() as int,
        ),
    decreases reg.len() - i,
{
    let p_i = pending_of(reg.take(i), applied);
    let p = pending_of(reg, applied);
    if i == reg.len() {
        assert(reg.take(i) =~= reg);
        assert(p_i =~= p.take(p_i.len() as int));
    } else {
        lemma_pending_prefix(reg, applied, i + 1);
        let p_i1 = pending_of(reg.take(i + 1), applied);
        assert(reg.take(i + 1).drop_last() =~= reg.take(i));
        assert(reg.take(i + 1).last() == reg[i]);
        if applied.contains(reg[i].version) {
            assert(p_i1 == p_i);
        } else {
            assert(p_i1 == p_i.push(reg[i]));
        }
        assert(p_i =~= p.take(p_i.len() as int));
    }
}

/// Pending migrations keep the registry's strictly ascending version order.
pub proof fn lemma_pending_sorted(reg: Seq<MigrationDescriptor>, applied: Seq<u64>)
    requires
        sorted_strict(reg),
    ensures
        sorted_strict(pending_of(reg, applied)),
    decreases reg.len(),
{
    if reg.len() > 0 {
        assert(sorted_strict(reg.drop_last()));
        lemma_pending_sorted(reg.drop_last(), applied);
        lemma_pending_membership(reg.drop_last(), applied);
        let p1 = pending_of(reg.drop_last(), applied);
        if !applied.contains(reg.last().version) {
            let p = p1.push(reg.last());
            assert forall|i: int, j: int|
                0 <= i < j < p.len() implies p[i].version < p[j].version by {
                if j == p.len() - 1 {
                    assert(p1.contains(p1[i]));
                    let n = choose|n: int|
                        0 <= n < reg.drop_last().len() && reg.drop_last()[n] == p1[i];
                    assert(reg[n] == p1[i]);
                    assert(reg[n].version < reg[reg.len() - 1].version);
                }
            }
        }
    }
}

/// Against a store with nothing recorded, every registered migration is
/// pending, in registry order. With `run`'s contract this gives the
/// fresh-store guarantee: a full run applies exactly the registry's versions,
/// ascending, and afterwards the store records exactly those versions.
pub proof fn lemma_all_pending_when_store_empty(reg: Seq<MigrationDescriptor>)
    ensures
        pending_of(reg, Seq::<u64>::empty()) == reg,
    decreases reg.len(),
{
    if reg.len() == 0 {
        assert(pending_of(reg, Seq::<u64>::empty()) =~= reg);
    } else {
        lemma_all_pending_when_store_empty(reg.drop_last());
        assert(!Seq::<u64>::empty().contains(reg.last().version));
        assert(reg.drop_last().push(reg.last()) =~= reg);
    }
}

/// When every registered version is already recorded, nothing is pending.
proof fn lemma_pending_empty_when_covered(reg: Seq<MigrationDescriptor>, applied: Seq<u64>)
    requires
        forall|k: int| 0 <= k < reg.len() ==> applied.contains(#[trigger] reg[k].version),
    ensures
        pending_of(reg, applied).len() == 0,
    decreases reg.len(),
{
    if reg.len() > 0 {
        assert forall|k: int| 0 <= k < reg.drop_last().len() implies applied.contains(
            #[trigger] reg.drop_last()[k].version,
        ) by {
            assert(reg.drop_last()[k] == reg[k]);
        }
        lemma_pending_empty_when_covered(reg.drop_last(), applied);
        assert(applied.contains(reg[reg.len() - 1].version));
    }
}

/// Every registered version is either already recorded or carried by some
/// pending descriptor.
proof fn lemma_pending_covers(reg: Seq<MigrationDescriptor>, applied: Seq<u64>)
    ensures
        forall|k: int|
            0 <= k < reg.len() ==> applied.contains(#[trigger] reg[k].version) || pending_of(
                reg,
                applied,
            ).contains(reg[k]),
    decreases reg.len(),
{
    if reg.len() > 0 {
        lemma_pending_covers(reg.drop_last(), applied);
        let p1 = pending_of(reg.drop_last(), applied);
        let p = pending_of(reg, applied);
        assert forall|k: int|
            0 <= k < reg.len() implies applied.contains(#[trigger] reg[k].version) || p.contains(
            reg[k],
        ) by {
            if k == reg.len() - 1 {
                if !applied.contains(reg[k].version) {
                    assert(p[p.len() - 1] == reg[k]);
                }
            } else {
                assert(reg.drop_last()[k] == reg[k]);
                if !applied.contains(reg[k].version) {
                    let m = choose|m: int| 0 <= m < p1.len() && p1[m] == reg[k];
                    assert(p[m] == reg[k]);
                }
            }
        }
    }
}

/// Idempotence: once a run has recorded every pending version, nothing is
/// pending any more, so by `run`'s contract an immediately repeated run
/// returns `NoOp` and writes nothing.
pub proof fn lemma_second_run_noop(reg: Seq<MigrationDescriptor>, applied: Seq<u64>)
    ensures
        pending_of(reg, applied + versions_of(pending_of(reg, applied))) == Seq::<
            MigrationDescriptor,
        >::empty(),
{
    let p = pending_of(reg, applied);
    let a2 = applied + versions_of(p);
    lemma_pending_covers(reg, applied);
    assert forall|k: int| 0 <= k < reg.len() implies a2.contains(#[trigger] reg[k].version) by {
        lemma_add_contains(applied, versions_of(p), reg[k].version);
        if !applied.contains(reg[k].version) {
            let m = choose|m: int| 0 <= m < p.len() && p[m] == reg[k];
            assert(versions_of(p)[m] == reg[k].version);
        }
    }
    lemma_pending_empty_when_covered(reg, a2);
    assert(pending_of(reg, a2) =~= Seq::<MigrationDescriptor>::empty());
}

/// Resumability: after the versions before position `i` of the pending
/// sequence have been recorded — the state `run` leaves behind when the body
/// at position `i` fails — exactly the pending suffix from `i` on is still
/// pending, beginning with the failed version.
pub proof fn lemma_resume_after_failure(reg: Seq<MigrationDescriptor>, applied: Seq<u64>, i: int)
    requires
        sorted_strict(reg),
        0 <= i <= pending_of(reg, applied).len(),
    ensures
        pending_of(reg, applied + versions_of(pending_of(reg, applied).take(i))) == pending_of(
            reg,
            applied,
        ).skip(i),
    decreases reg.len(),
{
    let p = pending_of(reg, applied);
    let a2 = applied + versions_of(p.take(i));
    if reg.len() == 0 {
        assert(pending_of(reg, a2) =~= p.skip(i));
    } else {
        let reg1 = reg.drop_last();
        let d = reg.last();
        let p1 = pending_of(reg1, applied);
        assert(sorted_strict(reg1));
        if applied.contains(d.version) {
            lemma_add_contains(applied, versions_of(p.take(i)), d.version);
            lemma_resume_after_failure(reg1, applied, i);
        } else {
            if i <= p1.len() {
                assert(p.take(i) =~= p1.take(i));
                lemma_pending_membership(reg1, applied);
                assert(!versions_of(p1.take(i)).contains(d.version)) by {
                    lemma_versions_contains(p1.take(i), d.version);
                    if exists|k: int|
                        0 <= k < p1.take(i).len() && #[trigger] p1.take(i)[k].version
                            == d.version {
                        let k = choose|k: int|
                            0 <= k < p1.take(i).len() && #[trigger] p1.take(i)[k].version
                                == d.version;
                        assert(p1.contains(p1[k]));
                        let n = choose|n: int| 0 <= n < reg1.len() && reg1[n] == p1[k];
                        assert(reg[n] == p1[k]);
                        assert(reg[n].version < reg[reg.len() - 1].version);
                    }
                }
                lemma_add_contains(applied, versions_of(p.take(i)), d.version);
                lemma_resume_after_failure(reg1, applied, i);
                assert(p1.skip(i).push(d) =~= p.skip(i));
            } else {
                assert(i == p.len());
                assert(p.take(i) =~= p);
                lemma_second_run_noop(reg, applied);
                assert(p.skip(i) =~= Seq::<MigrationDescriptor>::empty());
            }
        }
    }
}

/// Atomicity boundary of a failed run: when the body at position `k` of the
/// pending sequence fails, the versions recorded by the run — those of the
/// pending prefix before `k` — all lie strictly below the failed version,
/// and every registered version below the failed one is either already
/// applied or among them. Nothing at or above the failed version is
/// recorded.
pub proof fn lemma_atomic_failure_boundary(reg: Seq<MigrationDescriptor>, applied: Seq<u64>, k: int)
    requires
        sorted_strict(reg),
        0 <= k < pending_of(reg, applied).len(),
    ensures
        forall|m: int|
            0 <= m < k ==> versions_of(pending_of(reg, applied).take(k))[m] < pending_of(
                reg,
                applied,
            )[k].version,
        forall|j: int|
            0 <= j < reg.len() && (#[trigger] reg[j].version) < pending_of(reg, applied)[k].version
                ==> applied.contains(reg[j].version) || versions_of(
                pending_of(reg, applied).take(k),
            ).contains(reg[j].version),
{
    let p = pending_of(reg, applied);
    lemma_pending_sorted(reg, applied);
    lemma_pending_covers(reg, applied);
    assert forall|m: int| 0 <= m < k implies versions_of(p.take(k))[m] < p[k].version by {
        assert(p.take(k)[m] == p[m]);
    }
    assert forall|j: int|
        0 <= j < reg.len() && (#[trigger] reg[j].version) < p[k].version implies applied.contains(
        reg[j].version,
    ) || versions_of(p.take(k)).contains(reg[j].version) by {
        if !applied.contains(reg[j].version) {
            let m = choose|m: int| 0 <= m < p.len() && p[m] == reg[j];
            assert(m < k);
            assert(p.take(k)[m] == p[m]);
            assert(versions_of(p.take(k))[m] == reg[j].version);
        }
    }
}

/// Ensures the store is up to date: applies every pending migration, in
/// ascending version order, recording each applied version alongside the
/// body that `execute` ran.
///
/// `execute` runs one migration body — given the version and the body text —
/// inside a transactional scope that the caller commits together with the
/// version record; it reports whether the body succeeded. On the first
/// failure the run stops: the failed version and everything after it stay
/// unrecorded, while everything applied before stays recorded, so a later
/// run resumes exactly at the failed version.
#[verifier::loop_isolation(false)]
pub fn run<F: Fn(u64, String) -> Result<(), String>>(
    registry: &MigrationRegistry,
    store: &mut VersionStore,
    execute: F,
) -> (r: RunResult)
    requires
        registry.wf(),
        old(store).wf(),
        forall|args: (u64, String)| #[trigger] call_requires(execute, args),
    ensures
        final(store).wf(),
        match r {
            RunResult::NoOp => pending_of(registry@, old(store)@).len() == 0 && final(store)@
                == old(store)@,
            RunResult::Applied(vs) => {
                let pending = pending_of(registry@, old(store)@);
                &&& pending.len() > 0
                &&& vs@ == versions_of(pending)
                &&& ascending(vs@)
                &&& final(store)@ == old(store)@ + vs@
            },
            RunResult::Failed(v, cause) => {
                let pending = pending_of(registry@, old(store)@);
                exists|k: int|
                    {
                        &&& 0 <= k < pending.len()
                        &&& v == (#[trigger] pending[k]).version
                        &&& final(store)@ == old(store)@ + versions_of(pending.take(k))
                        &&& !final(store)@.contains(v)
                        &&& call_ensures(execute, (v, pending[k].body), Err::<(), String>(cause))
                    }
            },
        },
        (forall|args: (u64, String), out: Result<(), String>|
            #[trigger] call_ensures(execute, args, out) ==> out is Ok) ==> !(r is Failed),
{
    let ghost reg = registry@;
    let ghost a0 = old(store)@;
    let ghost pend = pending_of(reg, a0);
    let entries = registry.ordered();
    let mut applied_now: Vec<u64> = Vec::new();
    proof {
        assert(reg.take(0) =~= Seq::<MigrationDescriptor>::empty());
        assert(versions_of(pending_of(reg.take(0), a0)) =~= Seq::<u64>::empty());
        assert(store@ =~= a0 + applied_now@);
    }
    let mut i: usize = 0;
    while i < entries.len()
        invariant
            0 <= i <= reg.len(),
            store.wf(),
            applied_now@ == versions_of(pending_of(reg.take(i as int), a0)),
            store@ == a0 + applied_now@,
        decreases reg.len() - i,
    {
        let d = &entries[i];
        proof {
            assert(reg.take(i + 1).drop_last() =~= reg.take(i as int));
            assert(reg.take(i + 1).last() == reg[i as int]);
        }
        if !store.contains(d.version) {
            proof {
                lemma_add_contains(a0, applied_now@, d.version);
            }
            let res = execute(d.version, d.body.clone());
            match res {
                Ok(_) => {
                    let rec = store.record_applied(d.version);
                    match rec {
                        Ok(_) => {},
                        Err(_) => {
                            return unreached();
                        },
                    }
                    applied_now.push(d.version);
                    proof {
                        let p_i = pending_of(reg.take(i as int), a0);
                        assert(pending_of(reg.take(i + 1), a0) == p_i.push(reg[i as int]));
                        assert(versions_of(p_i.push(reg[i as int])) =~= versions_of(p_i).push(
                            d.version,
                        ));
                        assert(store@ =~= a0 + applied_now@);
                    }
                },
                Err(cause) => {
                    proof {
                        let p_i = pending_of(reg.take(i as int), a0);
                        let k = p_i.len() as int;
                        lemma_pending_prefix(reg, a0, i as int);
                        lemma_pending_prefix(reg, a0, i + 1);
                        assert(pending_of(reg.take(i + 1), a0) == p_i.push(reg[i as int]));
                        assert(pend[k] == reg[i as int]) by {
                            assert(p_i.push(reg[i as int]) == pend.take(k + 1));
                            assert(pend.take(k + 1)[k] == pend[k]);
                        }
                        assert(pend.take(k) == p_i);
                    }
                    return RunResult::Failed(d.version, cause);
                },
            }
        } else {
            proof {
                lemma_add_contains(a0, applied_now@, d.version);
                let p_i = pending_of(reg.take(i as int), a0);
                if applied_now@.contains(d.version) {
                    lemma_versions_contains(p_i, d.version);
                    let k = choose|k: int| 0 <= k < p_i.len() && #[trigger] p_i[k].version
                        == d.version;
                    lemma_pending_membership(reg.take(i as int), a0);
                    assert(p_i.contains(p_i[k]));
                    let m = choose|m: int|
                        0 <= m < reg.take(i as int).len() && reg.take(i as int)[m] == p_i[k];
                    assert(reg[m].version < reg[i as int].version);
                }
                assert(a0.contains(d.version));
                assert(pending_of(reg.take(i + 1), a0) == p_i);
            }
        }
        i += 1;
    }
    proof {
        assert(reg.take(reg.len() as int) =~= reg);
    }
    if applied_now.len() == 0 {
        proof {
            assert(store@ =~= a0);
        }
        RunResult::NoOp
    } else {
        proof {
            lemma_pending_sorted(reg, a0);
            assert forall|p: int, q: int|
                0 <= p < q < applied_now@.len() implies applied_now@[p] < applied_now@[q] by {
                assert(applied_now@[p] == pend[p].version);
                assert(applied_now@[q] == pend[q].version);
            }
        }
        RunResult::Applied(applied_now)
    }
}

} // verus!
