//! Taking the policies back out of a module they were restored into.

use vstd::prelude::*;
use crate::codes::{MODE_FP_FAST_MATH_DEFAULT, OP_CONSTANT, OP_EXECUTION_MODE_ID};
use crate::graph::{module_edges, module_floats};
use crate::listing::{lemma_width_listing_exists, lemma_width_listing_len, width_listing};
use crate::model::{InstructionView, ModuleView, OperandView};
use crate::policies::{
    can_take, decoded_policy, first_entry_with_id, first_with_result, flags_constant_id,
    is_fast_math_default, lemma_first_entry_with_id_unique, lemma_first_with_result_unique,
    lemma_no_defaults_kept, lemma_take_keeps_other_modes, other_modes, policy_decodable,
    saved_policies,
};
use crate::reach::{entry_float_widths, lemma_entry_float_widths_finite};
use crate::restore::{
    can_restore, constant_inst, declare_int, declare_once, emit_width, emit_widths,
    fast_math_default_operands, first_int_decl, first_policy_entry, is_prefix,
    lemma_emit_width, lemma_first_policy_entry_unique, lemma_prefix_keeps, lemma_prefix_push,
    lemma_prefix_trans,
    lemma_restore_next_grows, lemma_restore_step, mode_operands, plain_inst,
    policy_entry, policy_entry_found, restore_states, restored,
};

verus! {

/// The entry point that `policy` names is the first entry point carrying its
/// id, so that the id leads back to that entry point.
pub open spec fn entry_first_with_its_id(entries: Seq<InstructionView>, policy: (Seq<char>, u32, u32)) -> bool {
    forall|i: int|
        #[trigger] first_policy_entry(entries, policy.0, policy.1, i) ==> first_entry_with_id(
            entries,
            entries[i].operands[1],
            i,
        )
}

/// Every declared id among `types` is below `bound`.
pub open spec fn ids_below(types: Seq<InstructionView>, bound: int) -> bool {
    forall|k: int|
        0 <= k < types.len() && (#[trigger] types[k]).result_id is Some ==> types[k].result_id->Some_0
            < bound
}

/// The number of float widths that the entry point of a policy reaches.
pub open spec fn reached_width_count(m: ModuleView, policy: (Seq<char>, u32, u32)) -> nat {
    entry_float_widths(module_edges(m), module_floats(m), policy_entry(m.entry_points, policy.0, policy.1)).dom().len()
}

/// Each policy, repeated once per float width its entry point reaches.
pub open spec fn policies_per_width(m: ModuleView, policies: Seq<(Seq<char>, u32, u32)>) -> Seq<
    (Seq<char>, u32, u32),
>
    decreases policies.len(),
{
    if policies.len() == 0 {
        Seq::empty()
    } else {
        let p = policies.last();
        policies_per_width(m, policies.drop_last()) + Seq::new(
            reached_width_count(m, p),
            |i: int| p,
        )
    }
}

proof fn lemma_saved_concat(r: ModuleView, a: Seq<InstructionView>, b: Seq<InstructionView>)
    ensures
        saved_policies(r, a + b) == saved_policies(r, a) + saved_policies(r, b),
    decreases b.len(),
{
    if b.len() == 0 {
        assert(a + b =~= a);
        assert(saved_policies(r, a) + saved_policies(r, b) =~= saved_policies(r, a));
    } else {
        lemma_saved_concat(r, a, b.drop_last());
        assert((a + b).drop_last() =~= a + b.drop_last());
        assert((a + b).last() == b.last());
        if is_fast_math_default(b.last()) {
            assert(saved_policies(r, a + b) =~= saved_policies(r, a) + saved_policies(r, b));
        } else {
            assert(saved_policies(r, a + b) =~= saved_policies(r, a) + saved_policies(r, b));
        }
    }
}

proof fn lemma_saved_declare_once(r: ModuleView, insts: Seq<InstructionView>, opcode: u32, ops: Seq<OperandView>)
    requires
        !(ops.len() > 1 && ops[1] == OperandView::ExecutionMode(MODE_FP_FAST_MATH_DEFAULT)),
    ensures
        saved_policies(r, declare_once(insts, opcode, ops)) == saved_policies(r, insts),
{
    let d = declare_once(insts, opcode, ops);
    if d != insts {
        assert(d.drop_last() =~= insts);
        assert(!is_fast_math_default(d.last()));
    }
}

/// What the fast-math defaults emitted for one policy give back when taken.
proof fn lemma_emit_saved(
    r: ModuleView,
    modes: Seq<InstructionView>,
    caps: Seq<u32>,
    entry: u32,
    fast: bool,
    flags_id: u32,
    listing: Seq<(u32, u32)>,
    policy: (Seq<char>, u32, u32),
)
    requires
        forall|ty: u32|
            #![trigger fast_math_default_operands(entry, ty, flags_id)]
            policy_decodable(
                r,
                plain_inst(OP_EXECUTION_MODE_ID, fast_math_default_operands(entry, ty, flags_id)),
            ) && decoded_policy(
                r,
                plain_inst(OP_EXECUTION_MODE_ID, fast_math_default_operands(entry, ty, flags_id)),
            ) == policy,
        forall|j: int|
            0 <= j < modes.len() && is_fast_math_default(#[trigger] modes[j]) ==> policy_decodable(
                r,
                modes[j],
            ),
    ensures
        ({
            let m = emit_widths(modes, caps, entry, fast, flags_id, listing).0;
            &&& saved_policies(r, m) == saved_policies(r, modes) + Seq::new(
                listing.len(),
                |i: int| policy,
            )
            &&& forall|j: int|
                0 <= j < m.len() && is_fast_math_default(#[trigger] m[j]) ==> policy_decodable(r, m[j])
        }),
    decreases listing.len(),
{
    if listing.len() == 0 {
        assert(saved_policies(r, modes) + Seq::new(0, |i: int| policy) =~= saved_policies(r, modes));
    } else {
        let l = listing.drop_last();
        lemma_emit_saved(r, modes, caps, entry, fast, flags_id, l, policy);
        let (m0, c0) = emit_widths(modes, caps, entry, fast, flags_id, l);
        let (w, ty) = listing.last();
        let x = plain_inst(OP_EXECUTION_MODE_ID, fast_math_default_operands(entry, ty, flags_id));
        let m1 = m0.push(x);
        let dops = mode_operands(entry, crate::restore::denorm_mode(fast), w);
        let rops = mode_operands(entry, crate::codes::MODE_ROUNDING_MODE_RTE, w);
        let m2 = declare_once(m1, crate::codes::OP_EXECUTION_MODE, dops);
        let m3 = declare_once(m2, crate::codes::OP_EXECUTION_MODE, rops);
        assert(emit_width(m0, c0, entry, fast, flags_id, w, ty).0 == m3);
        assert(policy_decodable(r, x) && decoded_policy(r, x) == policy);
        assert(m1.drop_last() =~= m0);
        assert(is_fast_math_default(x));
        assert(saved_policies(r, m1) == saved_policies(r, m0).push(policy));
        lemma_saved_declare_once(r, m1, crate::codes::OP_EXECUTION_MODE, dops);
        lemma_saved_declare_once(r, m2, crate::codes::OP_EXECUTION_MODE, rops);
        assert(Seq::new(l.len(), |i: int| policy).push(policy) =~= Seq::new(listing.len(), |i: int| policy));
        assert(saved_policies(r, m3) =~= saved_policies(r, modes) + Seq::new(listing.len(), |i: int| policy));
        lemma_emit_width(m0, c0, entry, fast, flags_id, w, ty);
        assert forall|j: int| 0 <= j < m3.len() && is_fast_math_default(#[trigger] m3[j]) implies policy_decodable(
            r,
            m3[j],
        ) by {
            if j < m0.len() {
                lemma_prefix_keeps(m0, m3, j);
            } else if j == m0.len() {
            } else {
                lemma_prefix_push(m1, m1[0]);
                if j < m2.len() {
                    assert(m2[j] == plain_inst(crate::codes::OP_EXECUTION_MODE, dops));
                    assert(m3[j] == m2[j]) by {
                        crate::restore::lemma_declare_once(m2, crate::codes::OP_EXECUTION_MODE, rops);
                        lemma_prefix_keeps(m2, m3, j);
                    }
                } else {
                    assert(m3[j] == plain_inst(crate::codes::OP_EXECUTION_MODE, rops));
                }
            }
        }
    }
}

proof fn lemma_ids_below_states(m: ModuleView, q: Seq<(Seq<char>, u32, u32)>)
    requires
        m.bound is Some,
        ids_below(m.types_global_values, m.bound->Some_0 as int),
    ensures
        ids_below(restore_states(m, q).types, restore_states(m, q).next),
        restore_states(m, q).next >= m.bound->Some_0,
    decreases q.len(),
{
    if q.len() > 0 {
        lemma_ids_below_states(m, q.drop_last());
        let st0 = restore_states(m, q.drop_last());
        let p = q.last();
        let entry = policy_entry(m.entry_points, p.0, p.1);
        let widths = entry_float_widths(module_edges(m), module_floats(m), entry);
        if !widths.is_empty() {
            let (uint, types1, next1) = declare_int(st0.types, st0.next, 32, 0);
            assert(ids_below(types1, next1));
            let types2 = types1.push(constant_inst(uint, next1 as u32, p.2));
            assert forall|k: int| 0 <= k < types2.len() && (#[trigger] types2[k]).result_id is Some implies types2[k].result_id->Some_0
                < next1 + 1 by {
                if k < types1.len() {
                    assert(types2[k] == types1[k]);
                }
            }
        }
    }
}

proof fn lemma_states_types_prefix(m: ModuleView, p: Seq<(Seq<char>, u32, u32)>, k: int)
    requires
        0 <= k <= p.len(),
    ensures
        is_prefix(restore_states(m, p.subrange(0, k)).types, restore_states(m, p).types),
    decreases p.len() - k,
{
    if k < p.len() {
        lemma_states_types_prefix(m, p, k + 1);
        assert(p.subrange(0, k + 1).drop_last() =~= p.subrange(0, k));
        let st0 = restore_states(m, p.subrange(0, k));
        lemma_restore_step(st0, m.entry_points, module_edges(m), module_floats(m), p[k]);
        assert(p.subrange(0, k + 1).last() == p[k]);
        lemma_prefix_trans(
            st0.types,
            restore_states(m, p.subrange(0, k + 1)).types,
            restore_states(m, p).types,
        );
    } else {
        assert(p.subrange(0, k) =~= p);
        lemma_prefix_push(restore_states(m, p).types, restore_states(m, p).types[0]);
    }
}

/// The hypotheses of the round trip.
pub open spec fn round_trip_ready(m: ModuleView, policies: Seq<(Seq<char>, u32, u32)>) -> bool {
    &&& can_restore(m, policies)
    &&& forall|k: int| 0 <= k < m.execution_modes.len() ==> !is_fast_math_default(#[trigger] m.execution_modes[k])
    &&& forall|k: int| 0 <= k < policies.len() ==> entry_first_with_its_id(m.entry_points, #[trigger] policies[k])
    &&& policies.len() > 0 ==> ids_below(m.types_global_values, m.bound->Some_0 as int)
}

/// The fast-math defaults emitted for policy `k` decode back to that policy.
proof fn lemma_decode_step(m: ModuleView, policies: Seq<(Seq<char>, u32, u32)>, k: int, ty: u32)
    requires
        round_trip_ready(m, policies),
        0 <= k < policies.len(),
    ensures
        ({
            let r = restored(m, policies);
            let st0 = restore_states(m, policies.subrange(0, k));
            let p = policies[k];
            let entry = policy_entry(m.entry_points, p.0, p.1);
            let flags_id = declare_int(st0.types, st0.next, 32, 0).2 as u32;
            let x = plain_inst(OP_EXECUTION_MODE_ID, fast_math_default_operands(entry, ty, flags_id));
            !entry_float_widths(module_edges(m), module_floats(m), entry).is_empty() ==> policy_decodable(r, x)
                && decoded_policy(r, x) == p
        }),
{
    let r = restored(m, policies);
    let st0 = restore_states(m, policies.subrange(0, k));
    let p = policies[k];
    let entries = m.entry_points;
    let entry = policy_entry(entries, p.0, p.1);
    let widths = entry_float_widths(module_edges(m), module_floats(m), entry);
    if !widths.is_empty() {
        let (uint, types1, next1) = declare_int(st0.types, st0.next, 32, 0);
        let flags_id = next1 as u32;
        let x = plain_inst(OP_EXECUTION_MODE_ID, fast_math_default_operands(entry, ty, flags_id));
        // The entry point.
        assert(policy_entry_found(entries, p.0, p.1));
        let i0 = choose|i: int| first_policy_entry(entries, p.0, p.1, i) && (#[trigger] entries[i]).operands[1] is IdRef;
        let ic = choose|i: int| first_policy_entry(entries, p.0, p.1, i);
        lemma_first_policy_entry_unique(entries, p.0, p.1, ic, i0);
        assert(entries[i0].operands[1] == OperandView::IdRef(entry));
        assert(x.operands[0] == OperandView::IdRef(entry));
        assert(entry_first_with_its_id(entries, policies[k]));
        assert(first_entry_with_id(entries, x.operands[0], i0));
        let e = entries[i0];
        assert(e.operands.len() >= 3 && e.operands[2] is LiteralString && e.operands[0] is ExecutionModel);
        assert(r.entry_points == entries);
        // The flags constant.
        let q = policies.subrange(0, k + 1);
        assert(q.drop_last() =~= policies.subrange(0, k));
        assert(q.last() == p);
        let st1 = restore_states(m, q);
        let types2 = types1.push(constant_inst(uint, flags_id, p.2));
        assert(st1.types == types2);
        lemma_states_types_prefix(m, policies, k + 1);
        let t = restore_states(m, policies).types;
        assert(r.types_global_values == t);
        let pos = types1.len() as int;
        lemma_prefix_keeps(types2, t, pos);
        lemma_ids_below_states(m, policies.subrange(0, k));
        lemma_restore_next_grows(m, policies, k + 1);
        assert(st1.next == next1 + 1);
        assert(ids_below(types1, next1));
        assert forall|j: int| 0 <= j < pos implies (#[trigger] t[j]).result_id != Some(flags_id) by {
            lemma_prefix_keeps(types2, t, j);
            assert(t[j] == types1[j]);
        }
        assert(flags_constant_id(x) == flags_id);
        assert(first_with_result(t, flags_id, pos));
        assert(t[pos].opcode == OP_CONSTANT);
        assert(policy_decodable(r, x));
        // Decoding picks these two.
        let ie = choose|i: int| first_entry_with_id(r.entry_points, x.operands[0], i);
        lemma_first_entry_with_id_unique(entries, x.operands[0], ie, i0);
        let kc = choose|kk: int| first_with_result(r.types_global_values, flags_constant_id(x), kk);
        lemma_first_with_result_unique(t, flags_id, kc, pos);
        assert(decoded_policy(r, x) == p);
    }
}

proof fn lemma_round_trip_prefix(m: ModuleView, policies: Seq<(Seq<char>, u32, u32)>, k: int)
    requires
        round_trip_ready(m, policies),
        policies.len() > 0,
        0 <= k <= policies.len(),
    ensures
        ({
            let r = restored(m, policies);
            let modes = restore_states(m, policies.subrange(0, k)).modes;
            &&& saved_policies(r, modes) == policies_per_width(m, policies.subrange(0, k))
            &&& forall|j: int|
                0 <= j < modes.len() && is_fast_math_default(#[trigger] modes[j]) ==> policy_decodable(r, modes[j])
        }),
    decreases k,
{
    let r = restored(m, policies);
    if k == 0 {
        assert(policies.subrange(0, 0) =~= Seq::<(Seq<char>, u32, u32)>::empty());
        lemma_no_defaults_kept(r, m.execution_modes);
    } else {
        lemma_round_trip_prefix(m, policies, k - 1);
        let q = policies.subrange(0, k);
        assert(q.drop_last() =~= policies.subrange(0, k - 1));
        assert(q.last() == policies[k - 1]);
        let st0 = restore_states(m, policies.subrange(0, k - 1));
        let p = policies[k - 1];
        let entry = policy_entry(m.entry_points, p.0, p.1);
        let widths = entry_float_widths(module_edges(m), module_floats(m), entry);
        lemma_entry_float_widths_finite(module_edges(m), module_floats(m), entry);
        if widths.is_empty() {
            assert(widths.dom().len() == 0) by {
                assert(widths.dom() =~= Set::<u32>::empty());
            }
            assert(reached_width_count(m, p) == 0);
            assert(policies_per_width(m, q) =~= policies_per_width(m, q.drop_last()));
        } else {
            let (uint, types1, next1) = declare_int(st0.types, st0.next, 32, 0);
            let listing = width_listing(widths);
            lemma_width_listing_exists(widths);
            lemma_width_listing_len(widths, listing);
            assert forall|ty: u32|
                #![trigger fast_math_default_operands(entry, ty, next1 as u32)]
                policy_decodable(
                    r,
                    plain_inst(OP_EXECUTION_MODE_ID, fast_math_default_operands(entry, ty, next1 as u32)),
                ) && decoded_policy(
                    r,
                    plain_inst(OP_EXECUTION_MODE_ID, fast_math_default_operands(entry, ty, next1 as u32)),
                ) == p by {
                lemma_decode_step(m, policies, k - 1, ty);
            }
            lemma_emit_saved(r, st0.modes, st0.caps, entry, p.2 != 0, next1 as u32, listing, p);
            assert(reached_width_count(m, p) == listing.len());
        }
    }
}

/// Taking the policies of a module they were just restored into gives each
/// policy back, with the same name, execution model and flags, once per
/// float width its entry point reaches; policies whose entry point reaches no
/// float type drop out; and no fast-math default is left among the modes
/// that taking keeps.  This holds for a module without fast-math defaults
/// whose declared ids lie below its bound, where the entry point each policy
/// names is the first entry point carrying its id.
pub proof fn lemma_take_after_restore(m: ModuleView, policies: Seq<(Seq<char>, u32, u32)>)
    requires
        round_trip_ready(m, policies),
    ensures
        can_take(restored(m, policies)),
        saved_policies(restored(m, policies), restored(m, policies).execution_modes)
            == policies_per_width(m, policies),
        forall|k: int|
            0 <= k < other_modes(restored(m, policies).execution_modes).len() ==> !is_fast_math_default(
                #[trigger] other_modes(restored(m, policies).execution_modes)[k],
            ),
{
    let r = restored(m, policies);
    lemma_take_keeps_other_modes(r, r.execution_modes);
    if policies.len() == 0 {
        lemma_no_defaults_kept(r, m.execution_modes);
    } else {
        lemma_round_trip_prefix(m, policies, policies.len() as int);
        assert(policies.subrange(0, policies.len() as int) =~= policies);
    }
}

} // verus!
