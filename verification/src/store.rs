//! The per-entity stores: a list of output components holding at most one
//! component per type, and a list of blueprint records holding at most one
//! record per payload type. Insertion replaces a previous generation in
//! place; removal deletes it. These are the primitives the target
//! strategies are built from.

use vstd::prelude::*;

use crate::data::Component;
use crate::data::Payload;

verus! {

/// A blueprint record: owns exactly one payload value. Its identity is the
/// entity it is attached to; replacing the payload counts as a change.
#[derive(Clone, Copy, Debug, PartialEq, Eq, Structural)]
pub struct Blueprint {
    pub payload: Payload,
}

impl Blueprint {
    pub fn new(data: Payload) -> (b: Blueprint)
        ensures
            b == (Blueprint { payload: data }),
    {
        Blueprint { payload: data }
    }
}

// ---------------------------------------------------------------------------
// Component lists
// ---------------------------------------------------------------------------
/// Component types are pairwise distinct in a well-formed component list.
pub open spec fn comps_unique(cs: Seq<Component>) -> bool {
    forall|i: int, j: int|
        0 <= i < j < cs.len() ==> (#[trigger] cs[i]).ty != (#[trigger] cs[j]).ty
}

/// Whether a component of this type is present.
pub open spec fn has_ty(cs: Seq<Component>, ty: u64) -> bool {
    exists|i: int| 0 <= i < cs.len() && (#[trigger] cs[i]).ty == ty
}

/// The index of the component of this type (unique in a well-formed list).
pub open spec fn comp_index(cs: Seq<Component>, ty: u64) -> int {
    choose|i: int| 0 <= i < cs.len() && (#[trigger] cs[i]).ty == ty
}

/// The component of this type.
pub open spec fn comp_at(cs: Seq<Component>, ty: u64) -> Component
    recommends
        has_ty(cs, ty),
{
    cs[comp_index(cs, ty)]
}

/// Insert a component, replacing the previous component of the same type if
/// one is present.
pub open spec fn upsert(cs: Seq<Component>, c: Component) -> Seq<Component> {
    if has_ty(cs, c.ty) {
        cs.update(comp_index(cs, c.ty), c)
    } else {
        cs.push(c)
    }
}

/// Remove the component of this type, if present.
pub open spec fn remove_comp(cs: Seq<Component>, ty: u64) -> Seq<Component> {
    if has_ty(cs, ty) {
        cs.remove(comp_index(cs, ty))
    } else {
        cs
    }
}

/// Remove the components of the first `n` types of `tys`, in order.
pub open spec fn remove_tys_upto(cs: Seq<Component>, tys: Seq<u64>, n: int) -> Seq<Component>
    decreases n,
{
    if n <= 0 {
        cs
    } else {
        remove_comp(remove_tys_upto(cs, tys, n - 1), tys[n - 1])
    }
}

/// Remove the components of all the types of `tys`.
pub open spec fn remove_tys(cs: Seq<Component>, tys: Seq<u64>) -> Seq<Component> {
    remove_tys_upto(cs, tys, tys.len() as int)
}

/// Insert the first `n` components of `new`, in order, each replacing a
/// previous component of its type.
pub open spec fn upsert_all_upto(cs: Seq<Component>, new: Seq<Component>, n: int) -> Seq<
    Component,
>
    decreases n,
{
    if n <= 0 {
        cs
    } else {
        upsert(upsert_all_upto(cs, new, n - 1), new[n - 1])
    }
}

/// Insert all components of `new`, in order.
pub open spec fn upsert_all(cs: Seq<Component>, new: Seq<Component>) -> Seq<Component> {
    upsert_all_upto(cs, new, new.len() as int)
}

/// Whether `t` occurs among the first `n` elements of `tys`.
pub open spec fn in_first(tys: Seq<u64>, n: int, t: u64) -> bool {
    exists|k: int| 0 <= k < n && k < tys.len() && tys[k] == t
}

/// Pairwise-distinct type list.
pub open spec fn tys_unique(tys: Seq<u64>) -> bool {
    forall|i: int, j: int| 0 <= i < j < tys.len() ==> tys[i] != tys[j]
}

// ---------------------------------------------------------------------------
// Blueprint lists
// ---------------------------------------------------------------------------
/// Payload types are pairwise distinct in a well-formed blueprint list.
pub open spec fn bps_unique(bs: Seq<Blueprint>) -> bool {
    forall|i: int, j: int|
        0 <= i < j < bs.len() ==> (#[trigger] bs[i]).payload.ty != (#[trigger] bs[j]).payload.ty
}

/// Whether a blueprint of this payload type is attached.
pub open spec fn has_bp(bs: Seq<Blueprint>, ty: u64) -> bool {
    exists|i: int| 0 <= i < bs.len() && (#[trigger] bs[i]).payload.ty == ty
}

/// The index of the blueprint of this payload type.
pub open spec fn bp_index(bs: Seq<Blueprint>, ty: u64) -> int {
    choose|i: int| 0 <= i < bs.len() && (#[trigger] bs[i]).payload.ty == ty
}

/// The blueprint of this payload type.
pub open spec fn bp_at(bs: Seq<Blueprint>, ty: u64) -> Blueprint
    recommends
        has_bp(bs, ty),
{
    bs[bp_index(bs, ty)]
}

/// Attach a blueprint, replacing the previous record of the same payload
/// type if one is attached (a full replace: this is what change detection
/// observes).
pub open spec fn upsert_bp(bs: Seq<Blueprint>, b: Blueprint) -> Seq<Blueprint> {
    if has_bp(bs, b.payload.ty) {
        bs.update(bp_index(bs, b.payload.ty), b)
    } else {
        bs.push(b)
    }
}

/// Detach the blueprint of this payload type, if attached.
pub open spec fn remove_bp(bs: Seq<Blueprint>, ty: u64) -> Seq<Blueprint> {
    if has_bp(bs, ty) {
        bs.remove(bp_index(bs, ty))
    } else {
        bs
    }
}

// ---------------------------------------------------------------------------
// Laws of the stores
// ---------------------------------------------------------------------------
/// Replacing-or-adding one component keeps types unique, stores exactly the
/// new component under its type, and leaves every other type untouched.
pub proof fn lemma_upsert(cs: Seq<Component>, c: Component)
    requires
        comps_unique(cs),
    ensures
        comps_unique(upsert(cs, c)),
        has_ty(upsert(cs, c), c.ty),
        comp_at(upsert(cs, c), c.ty) == c,
        forall|t: u64|
            t != c.ty ==> #[trigger] has_ty(upsert(cs, c), t) == has_ty(cs, t),
        forall|t: u64|
            t != c.ty && has_ty(cs, t) ==> #[trigger] comp_at(upsert(cs, c), t) == comp_at(cs, t),
{
    let res = upsert(cs, c);
    if has_ty(cs, c.ty) {
        let k = comp_index(cs, c.ty);
        assert(0 <= k < cs.len() && cs[k].ty == c.ty);
        assert(forall|i: int| 0 <= i < cs.len() && (#[trigger] cs[i]).ty == c.ty ==> i == k);
        assert(comps_unique(res)) by {
            assert(forall|i: int|
                0 <= i < res.len() ==> (#[trigger] res[i]).ty == if i == k {
                    c.ty
                } else {
                    cs[i].ty
                });
        }
        assert(res[k].ty == c.ty);
        assert(has_ty(res, c.ty));
        assert(comp_index(res, c.ty) == k) by {
            let k2 = comp_index(res, c.ty);
            assert(0 <= k2 < res.len() && res[k2].ty == c.ty);
            if k2 != k {
                assert(cs[k2].ty == c.ty);
            }
        }
        assert forall|t: u64| t != c.ty implies #[trigger] has_ty(res, t) == has_ty(cs, t) by {
            if has_ty(cs, t) {
                let i = comp_index(cs, t);
                assert(i != k);
                assert(res[i].ty == t);
            }
            if has_ty(res, t) {
                let i = comp_index(res, t);
                assert(i != k);
                assert(cs[i].ty == t);
            }
        }
        assert forall|t: u64| t != c.ty && has_ty(cs, t) implies #[trigger] comp_at(res, t)
            == comp_at(cs, t) by {
            let i = comp_index(cs, t);
            assert(res[i].ty == t);
            let i2 = comp_index(res, t);
            assert(res[i2].ty == t);
            if i2 != i {
                assert(cs[i2].ty == t);
            }
        }
    } else {
        assert(res == cs.push(c));
        assert(forall|i: int| 0 <= i < cs.len() ==> (#[trigger] res[i]) == cs[i]);
        assert(res[cs.len() as int] == c);
        assert(comps_unique(res)) by {
            assert forall|i: int, j: int| 0 <= i < j < res.len() implies (#[trigger] res[i]).ty
                != (#[trigger] res[j]).ty by {
                if j == cs.len() {
                    assert(res[j] == c);
                    assert(res[i].ty != c.ty) by {
                        if cs[i].ty == c.ty {
                            assert(has_ty(cs, c.ty));
                        }
                    }
                }
            }
        }
        assert(has_ty(res, c.ty));
        assert(comp_at(res, c.ty) == c) by {
            let k2 = comp_index(res, c.ty);
            assert(0 <= k2 < res.len() && res[k2].ty == c.ty);
            if k2 != cs.len() {
                assert(cs[k2].ty == c.ty);
                assert(has_ty(cs, c.ty));
            }
        }
        assert forall|t: u64| t != c.ty implies #[trigger] has_ty(res, t) == has_ty(cs, t) by {
            if has_ty(res, t) {
                let i = comp_index(res, t);
                assert(i != cs.len());
                assert(cs[i].ty == t);
            }
            if has_ty(cs, t) {
                let i = comp_index(cs, t);
                assert(res[i].ty == t);
            }
        }
        assert forall|t: u64| t != c.ty && has_ty(cs, t) implies #[trigger] comp_at(res, t)
            == comp_at(cs, t) by {
            let i = comp_index(cs, t);
            assert(res[i].ty == t);
            let i2 = comp_index(res, t);
            assert(res[i2].ty == t);
            if i2 != i {
                if i2 == cs.len() {
                    assert(res[i2] == c);
                } else {
                    assert(cs[i2].ty == t);
                }
            }
        }
    }
}

/// Removing one type keeps types unique, leaves no component of that type,
/// and leaves every other type untouched.
pub proof fn lemma_remove_comp(cs: Seq<Component>, ty: u64)
    requires
        comps_unique(cs),
    ensures
        comps_unique(remove_comp(cs, ty)),
        !has_ty(remove_comp(cs, ty), ty),
        forall|t: u64| t != ty ==> #[trigger] has_ty(remove_comp(cs, ty), t) == has_ty(cs, t),
        forall|t: u64|
            t != ty && has_ty(cs, t) ==> #[trigger] comp_at(remove_comp(cs, ty), t) == comp_at(
                cs,
                t,
            ),
{
    let res = remove_comp(cs, ty);
    if has_ty(cs, ty) {
        let k = comp_index(cs, ty);
        assert(0 <= k < cs.len() && cs[k].ty == ty);
        assert(forall|i: int| 0 <= i < cs.len() && (#[trigger] cs[i]).ty == ty ==> i == k);
        // index map: res[i] == cs[i] for i < k, res[i] == cs[i + 1] for i >= k
        assert(forall|i: int|
            0 <= i < res.len() ==> (#[trigger] res[i]) == if i < k {
                cs[i]
            } else {
                cs[i + 1]
            });
        assert(comps_unique(res));
        assert(!has_ty(res, ty)) by {
            if has_ty(res, ty) {
                let i = comp_index(res, ty);
                assert(0 <= i < res.len() && res[i].ty == ty);
                if i < k {
                    assert(cs[i].ty == ty);
                } else {
                    assert(cs[i + 1].ty == ty);
                }
            }
        }
        assert forall|t: u64| t != ty implies #[trigger] has_ty(res, t) == has_ty(cs, t) by {
            if has_ty(cs, t) {
                let i = comp_index(cs, t);
                assert(cs[i].ty == t && i != k);
                if i < k {
                    assert(res[i].ty == t);
                } else {
                    assert(res[i - 1].ty == t);
                }
            }
            if has_ty(res, t) {
                let i = comp_index(res, t);
                if i < k {
                    assert(cs[i].ty == t);
                } else {
                    assert(cs[i + 1].ty == t);
                }
            }
        }
        assert forall|t: u64| t != ty && has_ty(cs, t) implies #[trigger] comp_at(res, t)
            == comp_at(cs, t) by {
            let i = comp_index(cs, t);
            assert(cs[i].ty == t && i != k);
            let j: int = if i < k {
                i
            } else {
                i - 1
            };
            assert(res[j].ty == t);
            let j2 = comp_index(res, t);
            assert(res[j2].ty == t);
            if j2 != j {
                if j2 < k {
                    assert(cs[j2].ty == t);
                } else {
                    assert(cs[j2 + 1].ty == t);
                }
            }
            assert(res[j] == cs[i]);
        }
    }
}

/// Removing a list of types: afterwards a type is present exactly when it
/// was present before and is not among the removed ones, with its component
/// unchanged.
pub proof fn lemma_remove_tys_upto(cs: Seq<Component>, tys: Seq<u64>, n: int)
    requires
        comps_unique(cs),
        0 <= n <= tys.len(),
    ensures
        comps_unique(remove_tys_upto(cs, tys, n)),
        forall|t: u64|
            #[trigger] has_ty(remove_tys_upto(cs, tys, n), t) == (has_ty(cs, t) && !in_first(
                tys,
                n,
                t,
            )),
        forall|t: u64|
            has_ty(cs, t) && !in_first(tys, n, t) ==> #[trigger] comp_at(
                remove_tys_upto(cs, tys, n),
                t,
            ) == comp_at(cs, t),
    decreases n,
{
    if n <= 0 {
        assert(forall|t: u64| !in_first(tys, 0, t));
    } else {
        lemma_remove_tys_upto(cs, tys, n - 1);
        let prev = remove_tys_upto(cs, tys, n - 1);
        lemma_remove_comp(prev, tys[n - 1]);
        assert forall|t: u64| true implies #[trigger] in_first(tys, n, t) == (in_first(tys, n - 1, t)
            || tys[n - 1] == t) by {
            if in_first(tys, n, t) {
                let k = choose|k: int| 0 <= k < n && k < tys.len() && tys[k] == t;
                if k < n - 1 {
                    assert(in_first(tys, n - 1, t));
                }
            }
            if in_first(tys, n - 1, t) {
                let k = choose|k: int| 0 <= k < n - 1 && k < tys.len() && tys[k] == t;
                assert(0 <= k < n && k < tys.len() && tys[k] == t);
            }
            if tys[n - 1] == t {
                assert(0 <= n - 1 < n && n - 1 < tys.len() && tys[n - 1] == t);
            }
        }
    }
}

/// `remove_tys` over the full type list.
pub proof fn lemma_remove_tys(cs: Seq<Component>, tys: Seq<u64>)
    requires
        comps_unique(cs),
    ensures
        comps_unique(remove_tys(cs, tys)),
        forall|t: u64|
            #[trigger] has_ty(remove_tys(cs, tys), t) == (has_ty(cs, t) && !tys.contains(t)),
        forall|t: u64|
            has_ty(cs, t) && !tys.contains(t) ==> #[trigger] comp_at(remove_tys(cs, tys), t)
                == comp_at(cs, t),
{
    lemma_remove_tys_upto(cs, tys, tys.len() as int);
    assert forall|t: u64| true implies #[trigger] in_first(tys, tys.len() as int, t)
        == tys.contains(t) by {
        if in_first(tys, tys.len() as int, t) {
            let k = choose|k: int| 0 <= k < tys.len() && k < tys.len() && tys[k] == t;
            assert(tys[k] == t);
        }
        if tys.contains(t) {
            let k = choose|k: int| 0 <= k < tys.len() && tys[k] == t;
            assert(in_first(tys, tys.len() as int, t));
        }
    }
}

/// Inserting components keeps types unique.
pub proof fn lemma_upsert_all_unique(cs: Seq<Component>, new: Seq<Component>, n: int)
    requires
        comps_unique(cs),
        0 <= n <= new.len(),
    ensures
        comps_unique(upsert_all_upto(cs, new, n)),
    decreases n,
{
    if n > 0 {
        lemma_upsert_all_unique(cs, new, n - 1);
        lemma_upsert(upsert_all_upto(cs, new, n - 1), new[n - 1]);
    }
}

/// Inserting a bundle whose types are fresh and pairwise distinct is a plain
/// append: this is why a regeneration is a full replace, never a merge.
pub proof fn lemma_upsert_all_append(cs: Seq<Component>, new: Seq<Component>)
    requires
        comps_unique(cs),
        comps_unique(new),
        forall|j: int| 0 <= j < new.len() ==> !has_ty(cs, (#[trigger] new[j]).ty),
    ensures
        upsert_all(cs, new) == cs + new,
{
    lemma_upsert_all_append_upto(cs, new, new.len() as int);
    assert(upsert_all(cs, new) =~= cs + new);
}

proof fn lemma_upsert_all_append_upto(cs: Seq<Component>, new: Seq<Component>, n: int)
    requires
        comps_unique(cs),
        comps_unique(new),
        forall|j: int| 0 <= j < new.len() ==> !has_ty(cs, (#[trigger] new[j]).ty),
        0 <= n <= new.len(),
    ensures
        upsert_all_upto(cs, new, n) =~= cs + new.take(n),
    decreases n,
{
    if n <= 0 {
        assert(upsert_all_upto(cs, new, 0) =~= cs + new.take(0));
    } else {
        lemma_upsert_all_append_upto(cs, new, n - 1);
        let prev = upsert_all_upto(cs, new, n - 1);
        let c = new[n - 1];
        assert(!has_ty(prev, c.ty)) by {
            if has_ty(prev, c.ty) {
                let i = comp_index(prev, c.ty);
                assert(prev[i].ty == c.ty);
                assert(prev =~= cs + new.take(n - 1));
                if i < cs.len() {
                    assert(cs[i].ty == c.ty);
                    assert(has_ty(cs, c.ty));
                } else {
                    assert(new.take(n - 1)[i - cs.len()] == new[i - cs.len()]);
                    assert(new[i - cs.len()].ty == c.ty);
                }
            }
        }
        assert(upsert_all_upto(cs, new, n) == prev.push(c));
        assert(prev.push(c) =~= cs + new.take(n));
    }
}

/// Blueprint attachment: stores exactly the new record under its payload
/// type and leaves other payload types untouched.
pub proof fn lemma_upsert_bp(bs: Seq<Blueprint>, b: Blueprint)
    requires
        bps_unique(bs),
    ensures
        bps_unique(upsert_bp(bs, b)),
        has_bp(upsert_bp(bs, b), b.payload.ty),
        bp_at(upsert_bp(bs, b), b.payload.ty) == b,
        forall|t: u64|
            t != b.payload.ty ==> #[trigger] has_bp(upsert_bp(bs, b), t) == has_bp(bs, t),
        forall|t: u64|
            t != b.payload.ty && has_bp(bs, t) ==> #[trigger] bp_at(upsert_bp(bs, b), t) == bp_at(
                bs,
                t,
            ),
{
    let res = upsert_bp(bs, b);
    let ty = b.payload.ty;
    if has_bp(bs, ty) {
        let k = bp_index(bs, ty);
        assert(0 <= k < bs.len() && bs[k].payload.ty == ty);
        assert(forall|i: int|
            0 <= i < res.len() ==> (#[trigger] res[i]) == if i == k {
                b
            } else {
                bs[i]
            });
        assert(res[k].payload.ty == ty);
        assert(has_bp(res, ty));
        assert(bp_at(res, ty) == b) by {
            let k2 = bp_index(res, ty);
            assert(res[k2].payload.ty == ty);
            if k2 != k {
                assert(bs[k2].payload.ty == ty);
            }
        }
        assert forall|t: u64| t != ty implies #[trigger] has_bp(res, t) == has_bp(bs, t) by {
            if has_bp(bs, t) {
                let i = bp_index(bs, t);
                assert(i != k);
                assert(res[i].payload.ty == t);
            }
            if has_bp(res, t) {
                let i = bp_index(res, t);
                assert(i != k);
                assert(bs[i].payload.ty == t);
            }
        }
        assert forall|t: u64| t != ty && has_bp(bs, t) implies #[trigger] bp_at(res, t) == bp_at(
            bs,
            t,
        ) by {
            let i = bp_index(bs, t);
            assert(res[i].payload.ty == t);
            let i2 = bp_index(res, t);
            assert(res[i2].payload.ty == t);
            if i2 != i {
                assert(bs[i2].payload.ty == t);
            }
        }
    } else {
        assert(res == bs.push(b));
        assert(forall|i: int| 0 <= i < bs.len() ==> (#[trigger] res[i]) == bs[i]);
        assert(res[bs.len() as int] == b);
        assert(bps_unique(res)) by {
            assert forall|i: int, j: int| 0 <= i < j < res.len() implies (#[trigger] res[i]).payload.ty
                != (#[trigger] res[j]).payload.ty by {
                if j == bs.len() {
                    if bs[i].payload.ty == ty {
                        assert(has_bp(bs, ty));
                    }
                }
            }
        }
        assert(has_bp(res, ty));
        assert(bp_at(res, ty) == b) by {
            let k2 = bp_index(res, ty);
            assert(res[k2].payload.ty == ty);
            if k2 != bs.len() {
                assert(bs[k2].payload.ty == ty);
                assert(has_bp(bs, ty));
            }
        }
        assert forall|t: u64| t != ty implies #[trigger] has_bp(res, t) == has_bp(bs, t) by {
            if has_bp(res, t) {
                let i = bp_index(res, t);
                assert(i != bs.len());
                assert(bs[i].payload.ty == t);
            }
            if has_bp(bs, t) {
                let i = bp_index(bs, t);
                assert(res[i].payload.ty == t);
            }
        }
        assert forall|t: u64| t != ty && has_bp(bs, t) implies #[trigger] bp_at(res, t) == bp_at(
            bs,
            t,
        ) by {
            let i = bp_index(bs, t);
            assert(res[i].payload.ty == t);
            let i2 = bp_index(res, t);
            assert(res[i2].payload.ty == t);
            if i2 != i {
                if i2 == bs.len() {
                    assert(res[i2] == b);
                } else {
                    assert(bs[i2].payload.ty == t);
                }
            }
        }
    }
}

/// Blueprint detachment: afterwards no record of that payload type remains;
/// other payload types are untouched.
pub proof fn lemma_remove_bp(bs: Seq<Blueprint>, ty: u64)
    requires
        bps_unique(bs),
    ensures
        bps_unique(remove_bp(bs, ty)),
        !has_bp(remove_bp(bs, ty), ty),
        forall|t: u64| t != ty ==> #[trigger] has_bp(remove_bp(bs, ty), t) == has_bp(bs, t),
        forall|t: u64|
            t != ty && has_bp(bs, t) ==> #[trigger] bp_at(remove_bp(bs, ty), t) == bp_at(bs, t),
{
    let res = remove_bp(bs, ty);
    if has_bp(bs, ty) {
        let k = bp_index(bs, ty);
        assert(0 <= k < bs.len() && bs[k].payload.ty == ty);
        assert(forall|i: int|
            0 <= i < bs.len() && (#[trigger] bs[i]).payload.ty == ty ==> i == k);
        assert(forall|i: int|
            0 <= i < res.len() ==> (#[trigger] res[i]) == if i < k {
                bs[i]
            } else {
                bs[i + 1]
            });
        assert(!has_bp(res, ty)) by {
            if has_bp(res, ty) {
                let i = bp_index(res, ty);
                if i < k {
                    assert(bs[i].payload.ty == ty);
                } else {
                    assert(bs[i + 1].payload.ty == ty);
                }
            }
        }
        assert forall|t: u64| t != ty implies #[trigger] has_bp(res, t) == has_bp(bs, t) by {
            if has_bp(bs, t) {
                let i = bp_index(bs, t);
                assert(bs[i].payload.ty == t && i != k);
                if i < k {
                    assert(res[i].payload.ty == t);
                } else {
                    assert(res[i - 1].payload.ty == t);
                }
            }
            if has_bp(res, t) {
                let i = bp_index(res, t);
                if i < k {
                    assert(bs[i].payload.ty == t);
                } else {
                    assert(bs[i + 1].payload.ty == t);
                }
            }
        }
        assert forall|t: u64| t != ty && has_bp(bs, t) implies #[trigger] bp_at(res, t) == bp_at(
            bs,
            t,
        ) by {
            let i = bp_index(bs, t);
            assert(bs[i].payload.ty == t && i != k);
            let j: int = if i < k {
                i
            } else {
                i - 1
            };
            assert(res[j].payload.ty == t);
            let j2 = bp_index(res, t);
            assert(res[j2].payload.ty == t);
            if j2 != j {
                if j2 < k {
                    assert(bs[j2].payload.ty == t);
                } else {
                    assert(bs[j2 + 1].payload.ty == t);
                }
            }
            assert(res[j] == bs[i]);
        }
    }
}

/// A type is present in a concatenation exactly when it is present in one
/// of the halves.
pub proof fn lemma_has_ty_concat(a: Seq<Component>, b: Seq<Component>, t: u64)
    ensures
        has_ty(a + b, t) == (has_ty(a, t) || has_ty(b, t)),
{
    if has_ty(a, t) {
        let i = comp_index(a, t);
        assert((a + b)[i] == a[i]);
        assert(has_ty(a + b, t));
    }
    if has_ty(b, t) {
        let i = comp_index(b, t);
        assert((a + b)[a.len() + i] == b[i]);
        assert(has_ty(a + b, t));
    }
    if has_ty(a + b, t) {
        let i = comp_index(a + b, t);
        if i < a.len() {
            assert(a[i].ty == t);
        } else {
            assert(b[i - a.len()].ty == t);
        }
    }
}

/// Concatenating two well-formed lists with disjoint types is well-formed.
pub proof fn lemma_concat_unique(a: Seq<Component>, b: Seq<Component>)
    requires
        comps_unique(a),
        comps_unique(b),
        forall|t: u64| #[trigger] has_ty(a, t) ==> !has_ty(b, t),
    ensures
        comps_unique(a + b),
{
    assert forall|i: int, j: int| 0 <= i < j < (a + b).len() implies (#[trigger] (a + b)[i]).ty
        != (#[trigger] (a + b)[j]).ty by {
        if i < a.len() && j >= a.len() {
            assert((a + b)[i] == a[i]);
            assert((a + b)[j] == b[j - a.len()]);
            if a[i].ty == b[j - a.len()].ty {
                assert(has_ty(a, a[i].ty));
                assert(has_ty(b, a[i].ty));
            }
        } else if i >= a.len() {
            assert((a + b)[i] == b[i - a.len()]);
            assert((a + b)[j] == b[j - a.len()]);
        } else {
            assert((a + b)[i] == a[i]);
            assert((a + b)[j] == a[j]);
        }
    }
}

/// Removing a type absent from the right half only touches the left half.
pub proof fn lemma_remove_one_concat(a: Seq<Component>, b: Seq<Component>, ty: u64)
    requires
        comps_unique(a + b),
        !has_ty(b, ty),
    ensures
        remove_comp(a + b, ty) == remove_comp(a, ty) + b,
{
    lemma_has_ty_concat(a, b, ty);
    if has_ty(a + b, ty) {
        assert(has_ty(a, ty));
        let k = comp_index(a + b, ty);
        let ka = comp_index(a, ty);
        assert((a + b)[ka] == a[ka]);
        assert((a + b)[ka].ty == ty);
        assert(k == ka) by {
            assert((a + b)[k].ty == ty);
            if k != ka {
                assert(false);
            }
        }
        assert(remove_comp(a + b, ty) =~= remove_comp(a, ty) + b) by {
            assert(forall|i: int|
                0 <= i < (a + b).remove(k).len() ==> ((a + b).remove(k))[i] == (#[trigger] (a
                    + b).remove(k)[i]));
            assert forall|i: int| 0 <= i < (a + b).remove(k).len() implies #[trigger] (a + b).remove(
                k,
            )[i] == (a.remove(ka) + b)[i] by {
                if i < k {
                    assert((a + b).remove(k)[i] == (a + b)[i]);
                } else {
                    assert((a + b).remove(k)[i] == (a + b)[i + 1]);
                }
            }
        }
    } else {
        assert(remove_comp(a + b, ty) == a + b);
        assert(remove_comp(a, ty) == a);
    }
}

/// Removing types absent from the right half only touches the left half.
pub proof fn lemma_remove_tys_concat(a: Seq<Component>, b: Seq<Component>, tys: Seq<u64>, n: int)
    requires
        comps_unique(a),
        comps_unique(b),
        forall|t: u64| #[trigger] has_ty(a, t) ==> !has_ty(b, t),
        forall|k: int| 0 <= k < tys.len() ==> !has_ty(b, #[trigger] tys[k]),
        0 <= n <= tys.len(),
    ensures
        remove_tys_upto(a + b, tys, n) == remove_tys_upto(a, tys, n) + b,
    decreases n,
{
    if n > 0 {
        lemma_remove_tys_concat(a, b, tys, n - 1);
        let pa = remove_tys_upto(a, tys, n - 1);
        lemma_remove_tys_upto(a, tys, n - 1);
        assert forall|t: u64| #[trigger] has_ty(pa, t) implies !has_ty(b, t) by {
            assert(has_ty(a, t));
        }
        lemma_concat_unique(pa, b);
        lemma_remove_one_concat(pa, b, tys[n - 1]);
    }
}

// ---------------------------------------------------------------------------
// Executable operations on the stores
// ---------------------------------------------------------------------------
/// The index holding a component of this type, if any.
pub fn find_comp_idx(cs: &Vec<Component>, ty: u64) -> (r: Option<usize>)
    ensures
        match r {
            Some(i) => i < cs@.len() && cs@[i as int].ty == ty,
            None => !has_ty(cs@, ty),
        },
{
    let n = cs.len();
    let mut i: usize = 0;
    while i < n
        invariant
            n == cs@.len(),
            0 <= i <= n,
            forall|j: int| 0 <= j < i ==> (#[trigger] cs@[j]).ty != ty,
        decreases n - i,
    {
        if cs[i].ty == ty {
            return Some(i);
        }
        i = i + 1;
    }
    None
}

/// The index holding a blueprint of this payload type, if any.
pub fn find_bp_idx(bs: &Vec<Blueprint>, ty: u64) -> (r: Option<usize>)
    ensures
        match r {
            Some(i) => i < bs@.len() && bs@[i as int].payload.ty == ty,
            None => !has_bp(bs@, ty),
        },
{
    let n = bs.len();
    let mut i: usize = 0;
    while i < n
        invariant
            n == bs@.len(),
            0 <= i <= n,
            forall|j: int| 0 <= j < i ==> (#[trigger] bs@[j]).payload.ty != ty,
        decreases n - i,
    {
        if bs[i].payload.ty == ty {
            return Some(i);
        }
        i = i + 1;
    }
    None
}

/// Insert a component in place, replacing the one of its type if present.
pub fn vec_upsert(cs: &mut Vec<Component>, c: Component)
    requires
        comps_unique(old(cs)@),
    ensures
        final(cs)@ == upsert(old(cs)@, c),
{
    match find_comp_idx(cs, c.ty) {
        Some(i) => {
            proof {
                assert(has_ty(cs@, c.ty));
                let k = comp_index(cs@, c.ty);
                assert(cs@[k].ty == c.ty);
                assert(k == i);
            }
            cs.remove(i);
            cs.insert(i, c);
            proof {
                assert(cs@ =~= upsert(old(cs)@, c));
            }
        },
        None => {
            cs.push(c);
        },
    }
}

/// Remove the component of this type in place, if present.
pub fn vec_remove_ty(cs: &mut Vec<Component>, ty: u64)
    requires
        comps_unique(old(cs)@),
    ensures
        final(cs)@ == remove_comp(old(cs)@, ty),
{
    match find_comp_idx(cs, ty) {
        Some(i) => {
            proof {
                assert(has_ty(cs@, ty));
                let k = comp_index(cs@, ty);
                assert(cs@[k].ty == ty);
                assert(k == i);
            }
            cs.remove(i);
        },
        None => {
        },
    }
}

/// Remove the components of all these types in place, in order.
pub fn vec_remove_tys(cs: &mut Vec<Component>, tys: &Vec<u64>)
    requires
        comps_unique(old(cs)@),
    ensures
        final(cs)@ == remove_tys(old(cs)@, tys@),
{
    let n = tys.len();
    let mut j: usize = 0;
    while j < n
        invariant
            n == tys@.len(),
            0 <= j <= n,
            comps_unique(cs@),
            cs@ == remove_tys_upto(old(cs)@, tys@, j as int),
        decreases n - j,
    {
        proof {
            lemma_remove_comp(cs@, tys@[j as int]);
        }
        vec_remove_ty(cs, tys[j]);
        j = j + 1;
    }
}

/// Insert all these components in place, in order.
pub fn vec_upsert_all(cs: &mut Vec<Component>, new: &Vec<Component>)
    requires
        comps_unique(old(cs)@),
    ensures
        final(cs)@ == upsert_all(old(cs)@, new@),
{
    let n = new.len();
    let mut j: usize = 0;
    while j < n
        invariant
            n == new@.len(),
            0 <= j <= n,
            comps_unique(cs@),
            cs@ == upsert_all_upto(old(cs)@, new@, j as int),
        decreases n - j,
    {
        proof {
            lemma_upsert(cs@, new@[j as int]);
        }
        vec_upsert(cs, new[j]);
        j = j + 1;
    }
}

/// Attach a blueprint in place, replacing the record of its payload type if
/// present.
pub fn vec_upsert_bp(bs: &mut Vec<Blueprint>, b: Blueprint)
    requires
        bps_unique(old(bs)@),
    ensures
        final(bs)@ == upsert_bp(old(bs)@, b),
{
    match find_bp_idx(bs, b.payload.ty) {
        Some(i) => {
            proof {
                assert(has_bp(bs@, b.payload.ty));
                let k = bp_index(bs@, b.payload.ty);
                assert(bs@[k].payload.ty == b.payload.ty);
                assert(k == i);
            }
            bs.remove(i);
            bs.insert(i, b);
            proof {
                assert(bs@ =~= upsert_bp(old(bs)@, b));
            }
        },
        None => {
            bs.push(b);
        },
    }
}

/// Detach the blueprint of this payload type in place, if present. Returns
/// whether a record was detached.
pub fn vec_remove_bp(bs: &mut Vec<Blueprint>, ty: u64) -> (was: bool)
    requires
        bps_unique(old(bs)@),
    ensures
        final(bs)@ == remove_bp(old(bs)@, ty),
        was == has_bp(old(bs)@, ty),
{
    match find_bp_idx(bs, ty) {
        Some(i) => {
            proof {
                assert(has_bp(bs@, ty));
                let k = bp_index(bs@, ty);
                assert(bs@[k].payload.ty == ty);
                assert(k == i);
            }
            bs.remove(i);
            true
        },
        None => false,
    }
}

} // verus!
