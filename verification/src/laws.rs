//! The laws of the merge protocol, stated over the same spec functions
//! the merge contracts use and proved once and for all.

use vstd::prelude::*;

use crate::assoc::assoc_map_of;
use crate::error::ErrorModel;
use crate::form::{all_updates_ok, is_first_update_err, spec_merged, spec_merged_freezing,
    update_ok, update_why, ParamModel};
use crate::value::ValueModel;

verus! {

/// Declaring a key and then merging a value of the same kind always
/// succeeds, and the merged form holds the new value under that key.
pub proof fn lemma_declare_then_merge_succeeds(
    m: Map<Seq<char>, ParamModel>,
    k: Seq<char>,
    d: ValueModel,
    about: Seq<char>,
    v: ValueModel,
)
    requires
        v.same_kind(d),
    ensures
        ({
            let m1 = m.insert(k, ParamModel { value: d, about: about, frozen: false });
            let u = seq![(k, v)];
            &&& all_updates_ok(m1, u)
            &&& spec_merged(m1, assoc_map_of(u)).dom().contains(k)
            &&& spec_merged(m1, assoc_map_of(u))[k].value == v
        }),
{
    let m1 = m.insert(k, ParamModel { value: d, about: about, frozen: false });
    let u = seq![(k, v)];
    assert(u[0] == (k, v));
    assert(update_ok(m1, k, v));
    assert(assoc_map_of(u) == assoc_map_of(u.drop_last()).insert(k, v));
    assert(assoc_map_of(u).dom().contains(k));
    assert(assoc_map_of(u)[k] == v);
}

/// Merging a value of a different kind than the declared one always
/// fails, with the kind-mismatch error naming the key.
pub proof fn lemma_merge_kind_mismatch_fails(
    m: Map<Seq<char>, ParamModel>,
    k: Seq<char>,
    v: ValueModel,
)
    requires
        m.dom().contains(k),
        !v.same_kind(m[k].value),
    ensures
        !all_updates_ok(m, seq![(k, v)]),
        is_first_update_err(m, seq![(k, v)], ErrorModel { key: k, why: "has the wrong type"@ }),
{
    let u = seq![(k, v)];
    assert(u[0] == (k, v));
    assert(!update_ok(m, k, v));
    assert(update_why(m, k, v) == "has the wrong type"@);
}

/// After freezing a key, merging a different value for it always fails
/// with the frozen error, while merging the very value it holds always
/// succeeds and leaves it in place.
pub proof fn lemma_frozen_merge(m: Map<Seq<char>, ParamModel>, k: Seq<char>, v: ValueModel)
    requires
        m.dom().contains(k),
    ensures
        ({
            let mf = m.insert(
                k,
                ParamModel { value: m[k].value, about: m[k].about, frozen: true },
            );
            &&& (v.same_kind(m[k].value) && v != m[k].value) ==> !all_updates_ok(mf, seq![(k, v)])
                && is_first_update_err(
                mf,
                seq![(k, v)],
                ErrorModel { key: k, why: "cannot be modified"@ },
            )
            &&& all_updates_ok(mf, seq![(k, m[k].value)])
            &&& spec_merged(mf, assoc_map_of(seq![(k, m[k].value)]))[k].value == m[k].value
        }),
{
    let mf = m.insert(k, ParamModel { value: m[k].value, about: m[k].about, frozen: true });
    if v.same_kind(m[k].value) && v != m[k].value {
        let u = seq![(k, v)];
        assert(u[0] == (k, v));
        assert(!update_ok(mf, k, v));
        assert(update_why(mf, k, v) == "cannot be modified"@);
    }
    let w = seq![(k, m[k].value)];
    assert(w[0] == (k, m[k].value));
    assert(update_ok(mf, k, m[k].value));
    assert(assoc_map_of(w) == assoc_map_of(w.drop_last()).insert(k, m[k].value));
    assert(assoc_map_of(w)[k] == m[k].value);
}

/// A merge that passes its checks preserves every declaration: the key
/// stays declared, its kind never changes, its frozen flag is untouched,
/// and a frozen parameter keeps its very value.
pub proof fn lemma_merge_preserves_declarations(
    m: Map<Seq<char>, ParamModel>,
    u: Seq<(Seq<char>, ValueModel)>,
    k: Seq<char>,
)
    requires
        all_updates_ok(m, u),
        m.dom().contains(k),
    ensures
        spec_merged(m, assoc_map_of(u)).dom().contains(k),
        spec_merged(m, assoc_map_of(u))[k].value.same_kind(m[k].value),
        spec_merged(m, assoc_map_of(u))[k].about == m[k].about,
        spec_merged(m, assoc_map_of(u))[k].frozen == m[k].frozen,
        m[k].frozen ==> spec_merged(m, assoc_map_of(u))[k].value == m[k].value,
{
    let um = assoc_map_of(u);
    if um.dom().contains(k) {
        crate::assoc::lemma_assoc_value_from_entry(u, k);
        let i = choose|i: int|
            0 <= i < u.len() && (#[trigger] u[i]).0 == k && assoc_map_of(u)[k] == u[i].1;
        assert(update_ok(m, u[i].0, u[i].1));
    } else {
        assert(m[k].value.same_kind(m[k].value));
    }
}

/// A freezing merge leaves any key the updates do not touch entirely
/// unchanged, whether or not the freeze list names it.
pub proof fn lemma_freezing_skips_absent_key(
    m: Map<Seq<char>, ParamModel>,
    u: Map<Seq<char>, ValueModel>,
    fz: Seq<Seq<char>>,
    k: Seq<char>,
)
    requires
        m.dom().contains(k),
        !u.dom().contains(k),
    ensures
        spec_merged_freezing(m, u, fz).dom().contains(k),
        spec_merged_freezing(m, u, fz)[k] == m[k],
{
}

} // verus!
