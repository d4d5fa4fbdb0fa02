//! Dropping float-control capabilities and extensions that no execution mode
//! or decoration of a module needs any more.

use vstd::prelude::*;
use crate::codes::{
    CAP_DENORM_FLUSH_TO_ZERO, CAP_DENORM_PRESERVE, CAP_FLOAT_CONTROLS2, CAP_ROUNDING_MODE_RTE,
    CAP_ROUNDING_MODE_RTZ, CAP_SIGNED_ZERO_INF_NAN_PRESERVE, DECORATION_FP_FAST_MATH_MODE,
    MODE_DENORM_FLUSH_TO_ZERO, MODE_DENORM_PRESERVE, MODE_FP_FAST_MATH_DEFAULT,
    MODE_ROUNDING_MODE_RTE, MODE_ROUNDING_MODE_RTZ, MODE_SIGNED_ZERO_INF_NAN_PRESERVE,
};
use crate::model::{insts_view, Instruction, InstructionView, Module, ModuleView, Operand, OperandView};
use crate::graph::{module_edges, module_floats};
use crate::restore::{
    capability_backed, declares_operands, denorm_capability, denorm_mode, float_controls_extension,
    lemma_declare_capabilities_from, lemma_restore_capabilities_backed,
    lemma_restore_covers_reached_widths, mode_operands, policy_entry, reaches_width, restore_states,
    restored, served_mode,
};

verus! {

/// `inst` is an execution mode of the given kind.
pub open spec fn is_mode(inst: InstructionView, mode: u32) -> bool {
    inst.operands.len() >= 2 && inst.operands[1] == OperandView::ExecutionMode(mode)
}

/// Some execution mode among `modes` is of the given kind.
pub open spec fn declares_mode(modes: Seq<InstructionView>, mode: u32) -> bool {
    exists|i: int| 0 <= i < modes.len() && is_mode(#[trigger] modes[i], mode)
}

/// Looking for a mode of the given kind meets no mode without a kind
/// operand before it finds one.
pub open spec fn mode_scan_ok(modes: Seq<InstructionView>, mode: u32) -> bool {
    forall|i: int|
        0 <= i < modes.len() && (#[trigger] modes[i]).operands.len() < 2 ==> exists|j: int|
            0 <= j < i && is_mode(#[trigger] modes[j], mode)
}

/// Some annotation decorates an operation with fast-math flags.
pub open spec fn fast_math_decorated(annotations: Seq<InstructionView>) -> bool {
    exists|i: int|
        0 <= i < annotations.len() && (#[trigger] annotations[i]).operands.len() > 1
            && annotations[i].operands[1] == OperandView::Decoration(DECORATION_FP_FAST_MATH_MODE)
}

/// Which float-control features a module still uses.
pub struct FloatControlsInUse {
    pub controls2: bool,
    pub preserve: bool,
    pub flush: bool,
    pub rte: bool,
    pub rtz: bool,
    pub preserve_special: bool,
}

/// The float-control features a module uses: the second version of float
/// controls by a fast-math default or a fast-math decoration, the others by
/// an execution mode of their kind.
pub open spec fn float_controls_in_use(m: ModuleView) -> FloatControlsInUse {
    FloatControlsInUse {
        controls2: declares_mode(m.execution_modes, MODE_FP_FAST_MATH_DEFAULT) || fast_math_decorated(
            m.annotations,
        ),
        preserve: declares_mode(m.execution_modes, MODE_DENORM_PRESERVE),
        flush: declares_mode(m.execution_modes, MODE_DENORM_FLUSH_TO_ZERO),
        rte: declares_mode(m.execution_modes, MODE_ROUNDING_MODE_RTE),
        rtz: declares_mode(m.execution_modes, MODE_ROUNDING_MODE_RTZ),
        preserve_special: declares_mode(m.execution_modes, MODE_SIGNED_ZERO_INF_NAN_PRESERVE),
    }
}

/// A capability declaration stays unless it declares a float-control
/// capability that nothing uses.
pub open spec fn keeps_capability(u: FloatControlsInUse, c: InstructionView) -> bool {
    let cap = c.operands[0]->Capability_0;
    if cap == CAP_FLOAT_CONTROLS2 {
        u.controls2
    } else if cap == CAP_DENORM_PRESERVE {
        u.preserve
    } else if cap == CAP_DENORM_FLUSH_TO_ZERO {
        u.flush
    } else if cap == CAP_ROUNDING_MODE_RTE {
        u.rte
    } else if cap == CAP_ROUNDING_MODE_RTZ {
        u.rtz
    } else if cap == CAP_SIGNED_ZERO_INF_NAN_PRESERVE {
        u.preserve_special
    } else {
        true
    }
}

/// An extension declaration stays unless it declares a float-controls
/// extension that nothing uses: the first version serves every mode of the
/// first version, the second version what the second version serves.
pub open spec fn keeps_extension(u: FloatControlsInUse, e: InstructionView) -> bool {
    let name = e.operands[0]->LiteralString_0;
    if name == "SPV_KHR_float_controls"@ {
        u.preserve || u.flush || u.rte || u.rtz || u.preserve_special
    } else if name == "SPV_KHR_float_controls2"@ {
        u.controls2
    } else {
        true
    }
}

/// The capability declarations that stay, in order.
pub open spec fn kept_capabilities(u: FloatControlsInUse, caps: Seq<InstructionView>) -> Seq<InstructionView>
    decreases caps.len(),
{
    if caps.len() == 0 {
        Seq::empty()
    } else {
        let rest = kept_capabilities(u, caps.drop_last());
        if keeps_capability(u, caps.last()) {
            rest.push(caps.last())
        } else {
            rest
        }
    }
}

/// The extension declarations that stay, in order.
pub open spec fn kept_extensions(u: FloatControlsInUse, exts: Seq<InstructionView>) -> Seq<InstructionView>
    decreases exts.len(),
{
    if exts.len() == 0 {
        Seq::empty()
    } else {
        let rest = kept_extensions(u, exts.drop_last());
        if keeps_extension(u, exts.last()) {
            rest.push(exts.last())
        } else {
            rest
        }
    }
}

/// The inputs on which pruning succeeds: each search for a mode kind finds
/// it, or the end, before any mode without a kind operand; every capability
/// declaration names a capability and every extension declaration a string.
pub open spec fn can_prune(m: ModuleView) -> bool {
    &&& mode_scan_ok(m.execution_modes, MODE_FP_FAST_MATH_DEFAULT)
    &&& mode_scan_ok(m.execution_modes, MODE_DENORM_PRESERVE)
    &&& mode_scan_ok(m.execution_modes, MODE_DENORM_FLUSH_TO_ZERO)
    &&& mode_scan_ok(m.execution_modes, MODE_ROUNDING_MODE_RTE)
    &&& mode_scan_ok(m.execution_modes, MODE_ROUNDING_MODE_RTZ)
    &&& mode_scan_ok(m.execution_modes, MODE_SIGNED_ZERO_INF_NAN_PRESERVE)
    &&& forall|k: int|
        0 <= k < m.capabilities.len() ==> (#[trigger] m.capabilities[k]).operands.len() >= 1
            && m.capabilities[k].operands[0] is Capability
    &&& forall|k: int|
        0 <= k < m.extensions.len() ==> (#[trigger] m.extensions[k]).operands.len() >= 1
            && m.extensions[k].operands[0] is LiteralString
}

/// The module with its unused float-control capabilities and extensions
/// dropped.
pub open spec fn pruned(m: ModuleView) -> ModuleView {
    let u = float_controls_in_use(m);
    ModuleView {
        capabilities: kept_capabilities(u, m.capabilities),
        extensions: kept_extensions(u, m.extensions),
        ..m
    }
}

/// Whether some execution mode is of the given kind.
fn has_mode(modes: &Vec<Instruction>, mode: u32) -> (r: bool)
    requires
        mode_scan_ok(insts_view(modes@), mode),
    ensures
        r == declares_mode(insts_view(modes@), mode),
{
    let ghost mv = insts_view(modes@);
    let mut k: usize = 0;
    while k < modes.len()
        invariant
            mv == insts_view(modes@),
            mode_scan_ok(mv, mode),
            k <= modes.len(),
            forall|j: int| 0 <= j < k ==> !is_mode(#[trigger] mv[j], mode),
        decreases modes.len() - k,
    {
        let inst = &modes[k];
        assert(mv[k as int] == inst@);
        assert(inst.operands.len() >= 2) by {
            if inst.operands.len() < 2 {
                assert(mv[k as int].operands.len() < 2);
            }
        }
        assert(inst@.operands[1] == inst.operands@[1]@);
        let found = match &inst.operands[1] {
            Operand::ExecutionMode(x) => *x == mode,
            _ => false,
        };
        if found {
            assert(is_mode(mv[k as int], mode));
            return true;
        }
        k = k + 1;
    }
    false
}

/// Whether some annotation decorates an operation with fast-math flags.
fn has_fast_math_decoration(annotations: &Vec<Instruction>) -> (r: bool)
    ensures
        r == fast_math_decorated(insts_view(annotations@)),
{
    let ghost av = insts_view(annotations@);
    let mut k: usize = 0;
    while k < annotations.len()
        invariant
            av == insts_view(annotations@),
            k <= annotations.len(),
            forall|j: int|
                0 <= j < k ==> !((#[trigger] av[j]).operands.len() > 1 && av[j].operands[1]
                    == OperandView::Decoration(DECORATION_FP_FAST_MATH_MODE)),
        decreases annotations.len() - k,
    {
        let inst = &annotations[k];
        assert(av[k as int] == inst@);
        if inst.operands.len() > 1 {
            assert(inst@.operands[1] == inst.operands@[1]@);
            let found = match &inst.operands[1] {
                Operand::Decoration(x) => *x == DECORATION_FP_FAST_MATH_MODE,
                _ => false,
            };
            if found {
                return true;
            }
        }
        k = k + 1;
    }
    false
}

/// Whether looking for a mode of the given kind meets no mode without a kind
/// operand before it finds one.
fn mode_scan_checks(modes: &Vec<Instruction>, mode: u32) -> (r: bool)
    ensures
        r == mode_scan_ok(insts_view(modes@), mode),
{
    let ghost mv = insts_view(modes@);
    let mut found = false;
    let mut i: usize = 0;
    while i < modes.len()
        invariant
            mv == insts_view(modes@),
            i <= modes.len(),
            found == (exists|j: int| 0 <= j < i && is_mode(#[trigger] mv[j], mode)),
            forall|k: int|
                0 <= k < i && (#[trigger] mv[k]).operands.len() < 2 ==> exists|j: int|
                    0 <= j < k && is_mode(#[trigger] mv[j], mode),
        decreases modes.len() - i,
    {
        let inst = &modes[i];
        assert(mv[i as int] == inst@);
        if inst.operands.len() < 2 {
            if !found {
                return false;
            }
        } else {
            assert(inst@.operands[1] == inst.operands@[1]@);
            let hit = match &inst.operands[1] {
                Operand::ExecutionMode(x) => *x == mode,
                _ => false,
            };
            if hit {
                assert(is_mode(mv[i as int], mode));
                found = true;
            }
        }
        i = i + 1;
    }
    true
}

/// Whether every declaration in `insts` has a first operand of the kind that
/// pruning reads: a capability, or with `strings` a string.
fn first_operands_check(insts: &Vec<Instruction>, strings: bool) -> (r: bool)
    ensures
        r == forall|k: int|
            0 <= k < insts@.len() ==> (#[trigger] insts_view(insts@)[k]).operands.len() >= 1 && if strings {
                insts_view(insts@)[k].operands[0] is LiteralString
            } else {
                insts_view(insts@)[k].operands[0] is Capability
            },
{
    let ghost iv = insts_view(insts@);
    let mut k: usize = 0;
    while k < insts.len()
        invariant
            iv == insts_view(insts@),
            k <= insts.len(),
            forall|j: int|
                0 <= j < k ==> (#[trigger] iv[j]).operands.len() >= 1 && if strings {
                    iv[j].operands[0] is LiteralString
                } else {
                    iv[j].operands[0] is Capability
                },
        decreases insts.len() - k,
    {
        let inst = &insts[k];
        assert(iv[k as int] == inst@);
        if inst.operands.len() < 1 {
            return false;
        }
        assert(inst@.operands[0] == inst.operands@[0]@);
        let ok = match &inst.operands[0] {
            Operand::LiteralString(_) => strings,
            Operand::Capability(_) => !strings,
            _ => false,
        };
        if !ok {
            return false;
        }
        k = k + 1;
    }
    true
}

/// Whether [`remove_unused_capabilities`] may be called on the module.
pub fn can_remove_unused_capabilities(m: &Module) -> (r: bool)
    ensures
        r == can_prune(m@),
{
    mode_scan_checks(&m.execution_modes, MODE_FP_FAST_MATH_DEFAULT)
        && mode_scan_checks(&m.execution_modes, MODE_DENORM_PRESERVE)
        && mode_scan_checks(&m.execution_modes, MODE_DENORM_FLUSH_TO_ZERO)
        && mode_scan_checks(&m.execution_modes, MODE_ROUNDING_MODE_RTE)
        && mode_scan_checks(&m.execution_modes, MODE_ROUNDING_MODE_RTZ)
        && mode_scan_checks(&m.execution_modes, MODE_SIGNED_ZERO_INF_NAN_PRESERVE)
        && first_operands_check(&m.capabilities, false)
        && first_operands_check(&m.extensions, true)
}

/// After splitting and dead-code elimination, drops the float-control
/// capabilities and extensions that no remaining execution mode or
/// fast-math decoration needs, keeping everything else in order.
pub fn remove_unused_capabilities(module: &mut Module)
    requires
        can_prune(old(module)@),
    ensures
        final(module)@ == pruned(old(module)@),
{
    let ghost m0 = module@;
    let controls2 = has_mode(&module.execution_modes, MODE_FP_FAST_MATH_DEFAULT)
        || has_fast_math_decoration(&module.annotations);
    let preserve = has_mode(&module.execution_modes, MODE_DENORM_PRESERVE);
    let flush = has_mode(&module.execution_modes, MODE_DENORM_FLUSH_TO_ZERO);
    let rte = has_mode(&module.execution_modes, MODE_ROUNDING_MODE_RTE);
    let rtz = has_mode(&module.execution_modes, MODE_ROUNDING_MODE_RTZ);
    let preserve_special = has_mode(&module.execution_modes, MODE_SIGNED_ZERO_INF_NAN_PRESERVE);
    let ghost u = float_controls_in_use(m0);
    assert(u == FloatControlsInUse { controls2, preserve, flush, rte, rtz, preserve_special });

    let mut caps: Vec<Instruction> = Vec::new();
    std::mem::swap(&mut caps, &mut module.capabilities);
    let ghost all_caps = caps@;
    assert(m0.capabilities.subrange(0, 0) =~= Seq::<InstructionView>::empty());
    let mut kept: Vec<Instruction> = Vec::new();
    for cap in it: caps.into_iter()
        invariant
            it.seq() == all_caps,
            m0.capabilities == insts_view(all_caps),
            can_prune(m0),
            u == (FloatControlsInUse { controls2, preserve, flush, rte, rtz, preserve_special }),
            insts_view(kept@) == kept_capabilities(u, m0.capabilities.subrange(0, it.index() as int)),
    {
        let ghost k = it.index() as int;
        assert(m0.capabilities.subrange(0, k + 1).drop_last() =~= m0.capabilities.subrange(0, k));
        assert(cap == all_caps[k]);
        assert(m0.capabilities[k] == cap@);
        assert(cap@.operands[0] == cap.operands@[0]@);
        let keep = match &cap.operands[0] {
            Operand::Capability(c) => {
                let c = *c;
                if c == CAP_FLOAT_CONTROLS2 {
                    controls2
                } else if c == CAP_DENORM_PRESERVE {
                    preserve
                } else if c == CAP_DENORM_FLUSH_TO_ZERO {
                    flush
                } else if c == CAP_ROUNDING_MODE_RTE {
                    rte
                } else if c == CAP_ROUNDING_MODE_RTZ {
                    rtz
                } else if c == CAP_SIGNED_ZERO_INF_NAN_PRESERVE {
                    preserve_special
                } else {
                    true
                }
            },
            _ => true,
        };
        assert(keep == keeps_capability(u, cap@));
        if keep {
            let ghost before = kept@;
            kept.push(cap);
            assert(insts_view(kept@) =~= insts_view(before).push(m0.capabilities[k]));
        }
    }
    assert(m0.capabilities.subrange(0, all_caps.len() as int) =~= m0.capabilities);
    module.capabilities = kept;

    let mut exts: Vec<Instruction> = Vec::new();
    std::mem::swap(&mut exts, &mut module.extensions);
    let ghost all_exts = exts@;
    assert(m0.extensions.subrange(0, 0) =~= Seq::<InstructionView>::empty());
    let first = String::from_str("SPV_KHR_float_controls");
    let second = String::from_str("SPV_KHR_float_controls2");
    let mut kept: Vec<Instruction> = Vec::new();
    for ext in it: exts.into_iter()
        invariant
            it.seq() == all_exts,
            m0.extensions == insts_view(all_exts),
            can_prune(m0),
            first@ == "SPV_KHR_float_controls"@,
            second@ == "SPV_KHR_float_controls2"@,
            u == (FloatControlsInUse { controls2, preserve, flush, rte, rtz, preserve_special }),
            insts_view(kept@) == kept_extensions(u, m0.extensions.subrange(0, it.index() as int)),
    {
        let ghost k = it.index() as int;
        assert(m0.extensions.subrange(0, k + 1).drop_last() =~= m0.extensions.subrange(0, k));
        assert(ext == all_exts[k]);
        assert(m0.extensions[k] == ext@);
        assert(ext@.operands[0] == ext.operands@[0]@);
        let keep = match &ext.operands[0] {
            Operand::LiteralString(s) => {
                if *s == first {
                    preserve || flush || rte || rtz || preserve_special
                } else if *s == second {
                    controls2
                } else {
                    true
                }
            },
            _ => true,
        };
        assert(keep == keeps_extension(u, ext@));
        if keep {
            let ghost before = kept@;
            kept.push(ext);
            assert(insts_view(kept@) =~= insts_view(before).push(m0.extensions[k]));
        }
    }
    assert(m0.extensions.subrange(0, all_exts.len() as int) =~= m0.extensions);
    module.extensions = kept;
    assert(module@ =~= pruned(m0));
}


proof fn lemma_kept_capabilities(u: FloatControlsInUse, caps: Seq<InstructionView>)
    ensures
        forall|k: int|
            0 <= k < kept_capabilities(u, caps).len() ==> keeps_capability(
                u,
                #[trigger] kept_capabilities(u, caps)[k],
            ) && caps.contains(kept_capabilities(u, caps)[k]),
        forall|k: int|
            0 <= k < caps.len() && keeps_capability(u, #[trigger] caps[k]) ==> kept_capabilities(
                u,
                caps,
            ).contains(caps[k]),
    decreases caps.len(),
{
    if caps.len() > 0 {
        let rest = caps.drop_last();
        lemma_kept_capabilities(u, rest);
        let kr = kept_capabilities(u, rest);
        let kc = kept_capabilities(u, caps);
        assert forall|k: int| 0 <= k < kc.len() implies keeps_capability(u, #[trigger] kc[k])
            && caps.contains(kc[k]) by {
            if k < kr.len() {
                assert(kc[k] == kr[k]);
                let j = choose|j: int| 0 <= j < rest.len() && rest[j] == kr[k];
                assert(caps[j] == kc[k]);
            } else {
                assert(kc[k] == caps.last());
                assert(caps[caps.len() - 1] == kc[k]);
            }
        }
        assert forall|k: int| 0 <= k < caps.len() && keeps_capability(u, #[trigger] caps[k]) implies kc.contains(
            caps[k],
        ) by {
            if k < rest.len() {
                assert(rest[k] == caps[k]);
                let j = choose|j: int| 0 <= j < kr.len() && kr[j] == rest[k];
                assert(kc[j] == kr[j]);
            } else {
                assert(kc[kc.len() - 1] == caps[k]);
            }
        }
    }
}

proof fn lemma_kept_extensions(u: FloatControlsInUse, exts: Seq<InstructionView>)
    ensures
        forall|k: int|
            0 <= k < kept_extensions(u, exts).len() ==> keeps_extension(
                u,
                #[trigger] kept_extensions(u, exts)[k],
            ) && exts.contains(kept_extensions(u, exts)[k]),
        forall|k: int|
            0 <= k < exts.len() && keeps_extension(u, #[trigger] exts[k]) ==> kept_extensions(
                u,
                exts,
            ).contains(exts[k]),
    decreases exts.len(),
{
    if exts.len() > 0 {
        let rest = exts.drop_last();
        lemma_kept_extensions(u, rest);
        let kr = kept_extensions(u, rest);
        let kc = kept_extensions(u, exts);
        assert forall|k: int| 0 <= k < kc.len() implies keeps_extension(u, #[trigger] kc[k])
            && exts.contains(kc[k]) by {
            if k < kr.len() {
                assert(kc[k] == kr[k]);
                let j = choose|j: int| 0 <= j < rest.len() && rest[j] == kr[k];
                assert(exts[j] == kc[k]);
            } else {
                assert(kc[k] == exts.last());
                assert(exts[exts.len() - 1] == kc[k]);
            }
        }
        assert forall|k: int| 0 <= k < exts.len() && keeps_extension(u, #[trigger] exts[k]) implies kc.contains(
            exts[k],
        ) by {
            if k < rest.len() {
                assert(rest[k] == exts[k]);
                let j = choose|j: int| 0 <= j < kr.len() && kr[j] == rest[k];
                assert(kc[j] == kr[j]);
            } else {
                assert(kc[kc.len() - 1] == exts[k]);
            }
        }
    }
}

proof fn lemma_kept_all_capabilities(u: FloatControlsInUse, caps: Seq<InstructionView>)
    requires
        forall|k: int| 0 <= k < caps.len() ==> keeps_capability(u, #[trigger] caps[k]),
    ensures
        kept_capabilities(u, caps) == caps,
    decreases caps.len(),
{
    if caps.len() > 0 {
        let rest = caps.drop_last();
        assert forall|k: int| 0 <= k < rest.len() implies keeps_capability(u, #[trigger] rest[k]) by {
            assert(rest[k] == caps[k]);
        }
        lemma_kept_all_capabilities(u, rest);
        assert(keeps_capability(u, caps[caps.len() - 1]));
        assert(rest.push(caps.last()) =~= caps);
    } else {
        assert(caps =~= Seq::<InstructionView>::empty());
    }
}

proof fn lemma_kept_all_extensions(u: FloatControlsInUse, exts: Seq<InstructionView>)
    requires
        forall|k: int| 0 <= k < exts.len() ==> keeps_extension(u, #[trigger] exts[k]),
    ensures
        kept_extensions(u, exts) == exts,
    decreases exts.len(),
{
    if exts.len() > 0 {
        let rest = exts.drop_last();
        assert forall|k: int| 0 <= k < rest.len() implies keeps_extension(u, #[trigger] rest[k]) by {
            assert(rest[k] == exts[k]);
        }
        lemma_kept_all_extensions(u, rest);
        assert(keeps_extension(u, exts[exts.len() - 1]));
        assert(rest.push(exts.last()) =~= exts);
    } else {
        assert(exts =~= Seq::<InstructionView>::empty());
    }
}

/// Pruning a pruned module is possible and changes nothing more.
pub proof fn lemma_prune_idempotent(m: ModuleView)
    requires
        can_prune(m),
    ensures
        can_prune(pruned(m)),
        pruned(pruned(m)) == pruned(m),
{
    let p = pruned(m);
    let u = float_controls_in_use(m);
    lemma_kept_capabilities(u, m.capabilities);
    lemma_kept_extensions(u, m.extensions);
    assert(float_controls_in_use(p) == u);
    assert forall|k: int| 0 <= k < p.capabilities.len() implies (#[trigger] p.capabilities[k]).operands.len() >= 1
        && p.capabilities[k].operands[0] is Capability by {
        let j = choose|j: int| 0 <= j < m.capabilities.len() && m.capabilities[j] == p.capabilities[k];
    }
    assert forall|k: int| 0 <= k < p.extensions.len() implies (#[trigger] p.extensions[k]).operands.len() >= 1
        && p.extensions[k].operands[0] is LiteralString by {
        let j = choose|j: int| 0 <= j < m.extensions.len() && m.extensions[j] == p.extensions[k];
    }
    lemma_kept_all_capabilities(u, p.capabilities);
    lemma_kept_all_extensions(u, p.extensions);
    assert(pruned(p) =~= p);
}

/// Pruning after restoring keeps what the restored modes need: for every
/// policy and every float width its entry point reaches, the declarations of
/// the denormal and rounding capabilities and of the float-controls extension
/// survive.
pub proof fn lemma_prune_keeps_restored_requirements(m: ModuleView, policies: Seq<(Seq<char>, u32, u32)>)
    requires
        can_prune(restored(m, policies)),
    ensures
        forall|i: int, w: u32|
            0 <= i < policies.len() && #[trigger] reaches_width(
                module_edges(m),
                module_floats(m),
                policy_entry(m.entry_points, policies[i].0, policies[i].1),
                w,
            ) ==> {
                let p = pruned(restored(m, policies));
                let fast = policies[i].2 != 0;
                &&& declares_operands(p.capabilities, seq![OperandView::Capability(denorm_capability(fast))])
                &&& declares_operands(p.capabilities, seq![OperandView::Capability(CAP_ROUNDING_MODE_RTE)])
                &&& declares_operands(p.extensions, float_controls_extension())
            },
{
    let r = restored(m, policies);
    let u = float_controls_in_use(r);
    lemma_restore_covers_reached_widths(m, policies);
    lemma_kept_capabilities(u, r.capabilities);
    lemma_kept_extensions(u, r.extensions);
    assert forall|i: int, w: u32|
        0 <= i < policies.len() && #[trigger] reaches_width(
            module_edges(m),
            module_floats(m),
            policy_entry(m.entry_points, policies[i].0, policies[i].1),
            w,
        ) implies {
            let p = pruned(r);
            let fast = policies[i].2 != 0;
            &&& declares_operands(p.capabilities, seq![OperandView::Capability(denorm_capability(fast))])
            &&& declares_operands(p.capabilities, seq![OperandView::Capability(CAP_ROUNDING_MODE_RTE)])
            &&& declares_operands(p.extensions, float_controls_extension())
        } by {
        let fast = policies[i].2 != 0;
        let e = policy_entry(m.entry_points, policies[i].0, policies[i].1);
        let p = pruned(r);
        let dops = mode_operands(e, denorm_mode(fast), w);
        let rops = mode_operands(e, MODE_ROUNDING_MODE_RTE, w);
        let di = choose|k: int| 0 <= k < r.execution_modes.len() && (#[trigger] r.execution_modes[k]).operands == dops;
        let ri = choose|k: int| 0 <= k < r.execution_modes.len() && (#[trigger] r.execution_modes[k]).operands == rops;
        assert(is_mode(r.execution_modes[di], denorm_mode(fast)));
        assert(is_mode(r.execution_modes[ri], MODE_ROUNDING_MODE_RTE));
        assert(u.rte);
        if fast {
            assert(u.flush);
        } else {
            assert(u.preserve);
        }
        let dcap = seq![OperandView::Capability(denorm_capability(fast))];
        let rcap = seq![OperandView::Capability(CAP_ROUNDING_MODE_RTE)];
        let dk = choose|k: int| 0 <= k < r.capabilities.len() && (#[trigger] r.capabilities[k]).operands == dcap;
        let rk = choose|k: int| 0 <= k < r.capabilities.len() && (#[trigger] r.capabilities[k]).operands == rcap;
        assert(keeps_capability(u, r.capabilities[dk]));
        assert(keeps_capability(u, r.capabilities[rk]));
        let j1 = choose|j: int| 0 <= j < p.capabilities.len() && p.capabilities[j] == r.capabilities[dk];
        let j2 = choose|j: int| 0 <= j < p.capabilities.len() && p.capabilities[j] == r.capabilities[rk];
        assert(p.capabilities[j1].operands == dcap);
        assert(p.capabilities[j2].operands == rcap);
        let ek = choose|k: int| 0 <= k < r.extensions.len() && (#[trigger] r.extensions[k]).operands == float_controls_extension();
        assert(r.extensions[ek].operands[0]->LiteralString_0 == "SPV_KHR_float_controls"@);
        assert(keeps_extension(u, r.extensions[ek]));
        let j3 = choose|j: int| 0 <= j < p.extensions.len() && p.extensions[j] == r.extensions[ek];
        assert(p.extensions[j3].operands == float_controls_extension());
    }
}


proof fn lemma_backed_in_use(m: ModuleView, c: u32)
    requires
        capability_backed(m.execution_modes, c),
    ensures
        ({
            let u = float_controls_in_use(m);
            &&& c == CAP_DENORM_PRESERVE ==> u.preserve
            &&& c == CAP_DENORM_FLUSH_TO_ZERO ==> u.flush
            &&& c == CAP_ROUNDING_MODE_RTE ==> u.rte
            &&& u.preserve || u.flush || u.rte
        }),
{
    let (e, w) = choose|e: u32, w: u32| #[trigger]
        declares_operands(m.execution_modes, mode_operands(e, served_mode(c), w));
    let i = choose|i: int|
        0 <= i < m.execution_modes.len() && (#[trigger] m.execution_modes[i]).operands == mode_operands(
            e,
            served_mode(c),
            w,
        );
    assert(is_mode(m.execution_modes[i], served_mode(c)));
}

/// Pruning right after restoring keeps every capability declaration and the
/// extension declaration that restoring added: each serves a mode that
/// restoring emitted or found.
pub proof fn lemma_prune_keeps_restore_additions(m: ModuleView, policies: Seq<(Seq<char>, u32, u32)>)
    requires
        can_prune(restored(m, policies)),
    ensures
        ({
            let r = restored(m, policies);
            let p = pruned(r);
            &&& forall|j: int|
                m.capabilities.len() <= j < r.capabilities.len() ==> p.capabilities.contains(
                    #[trigger] r.capabilities[j],
                )
            &&& forall|j: int|
                m.extensions.len() <= j < r.extensions.len() ==> p.extensions.contains(
                    #[trigger] r.extensions[j],
                )
        }),
{
    let r = restored(m, policies);
    let u = float_controls_in_use(r);
    if policies.len() > 0 {
        let st = restore_states(m, policies);
        lemma_restore_capabilities_backed(m, policies);
        lemma_declare_capabilities_from(m.capabilities, st.caps);
        lemma_kept_capabilities(u, r.capabilities);
        lemma_kept_extensions(u, r.extensions);
        assert forall|j: int| m.capabilities.len() <= j < r.capabilities.len() implies pruned(
            r,
        ).capabilities.contains(#[trigger] r.capabilities[j]) by {
            let c = choose|c: u32|
                st.caps.contains(c) && (#[trigger] r.capabilities[j]).operands == seq![OperandView::Capability(c)];
            let k = choose|k: int| 0 <= k < st.caps.len() && st.caps[k] == c;
            assert(capability_backed(r.execution_modes, st.caps[k]));
            lemma_backed_in_use(r, c);
            assert(keeps_capability(u, r.capabilities[j]));
        }
        assert forall|j: int| m.extensions.len() <= j < r.extensions.len() implies pruned(
            r,
        ).extensions.contains(#[trigger] r.extensions[j]) by {
            assert(st.caps.len() > 0);
            assert(capability_backed(r.execution_modes, st.caps[0]));
            lemma_backed_in_use(r, st.caps[0]);
            assert(j == m.extensions.len());
            assert(r.extensions[j].operands == float_controls_extension());
            assert(keeps_extension(u, r.extensions[j]));
        }
    }
}

// ----- what pruning keeps, stated on the module itself -----

proof fn lemma_kept_iff(m: ModuleView, c: InstructionView, e: InstructionView)
    ensures
        m.capabilities.contains(c) ==> (pruned(m).capabilities.contains(c) <==> keeps_capability(
            float_controls_in_use(m),
            c,
        )),
        m.extensions.contains(e) ==> (pruned(m).extensions.contains(e) <==> keeps_extension(
            float_controls_in_use(m),
            e,
        )),
{
    let u = float_controls_in_use(m);
    lemma_kept_capabilities(u, m.capabilities);
    lemma_kept_extensions(u, m.extensions);
    if m.capabilities.contains(c) {
        let j = choose|j: int| 0 <= j < m.capabilities.len() && m.capabilities[j] == c;
        if pruned(m).capabilities.contains(c) {
            let k = choose|k: int| 0 <= k < pruned(m).capabilities.len() && pruned(m).capabilities[k] == c;
            assert(keeps_capability(u, kept_capabilities(u, m.capabilities)[k]));
        }
        if keeps_capability(u, c) {
            assert(keeps_capability(u, m.capabilities[j]));
        }
    }
    if m.extensions.contains(e) {
        let j = choose|j: int| 0 <= j < m.extensions.len() && m.extensions[j] == e;
        if pruned(m).extensions.contains(e) {
            let k = choose|k: int| 0 <= k < pruned(m).extensions.len() && pruned(m).extensions[k] == e;
            assert(keeps_extension(u, kept_extensions(u, m.extensions)[k]));
        }
        if keeps_extension(u, e) {
            assert(keeps_extension(u, m.extensions[j]));
        }
    }
}

/// Pruning changes only the capability and extension sections, and keeps
/// nothing that the module did not declare.
pub proof fn lemma_prune_only_drops_declarations(m: ModuleView)
    ensures
        ({
            let p = pruned(m);
            &&& p.bound == m.bound
            &&& p.ext_inst_imports == m.ext_inst_imports
            &&& p.memory_model == m.memory_model
            &&& p.entry_points == m.entry_points
            &&& p.execution_modes == m.execution_modes
            &&& p.debug == m.debug
            &&& p.annotations == m.annotations
            &&& p.types_global_values == m.types_global_values
            &&& p.functions == m.functions
            &&& forall|k: int| 0 <= k < p.capabilities.len() ==> m.capabilities.contains(#[trigger] p.capabilities[k])
            &&& forall|k: int| 0 <= k < p.extensions.len() ==> m.extensions.contains(#[trigger] p.extensions[k])
        }),
{
    lemma_kept_capabilities(float_controls_in_use(m), m.capabilities);
    lemma_kept_extensions(float_controls_in_use(m), m.extensions);
}

/// A capability declaration that is not one of the float controls, and an
/// extension declaration that is not one of the two float-controls
/// extensions, always survive pruning.
pub proof fn lemma_prune_keeps_unrelated(m: ModuleView)
    requires
        can_prune(m),
    ensures
        forall|j: int|
            0 <= j < m.capabilities.len() && {
                let c = (#[trigger] m.capabilities[j]).operands[0]->Capability_0;
                c != CAP_FLOAT_CONTROLS2 && c != CAP_DENORM_PRESERVE && c != CAP_DENORM_FLUSH_TO_ZERO
                    && c != CAP_ROUNDING_MODE_RTE && c != CAP_ROUNDING_MODE_RTZ
                    && c != CAP_SIGNED_ZERO_INF_NAN_PRESERVE
            } ==> pruned(m).capabilities.contains(m.capabilities[j]),
        forall|j: int|
            0 <= j < m.extensions.len() && (#[trigger] m.extensions[j]).operands[0] != OperandView::LiteralString(
                "SPV_KHR_float_controls"@,
            ) && m.extensions[j].operands[0] != OperandView::LiteralString("SPV_KHR_float_controls2"@)
                ==> pruned(m).extensions.contains(m.extensions[j]),
{
    assert forall|j: int|
        0 <= j < m.capabilities.len() && {
            let c = (#[trigger] m.capabilities[j]).operands[0]->Capability_0;
            c != CAP_FLOAT_CONTROLS2 && c != CAP_DENORM_PRESERVE && c != CAP_DENORM_FLUSH_TO_ZERO
                && c != CAP_ROUNDING_MODE_RTE && c != CAP_ROUNDING_MODE_RTZ
                && c != CAP_SIGNED_ZERO_INF_NAN_PRESERVE
        } implies pruned(m).capabilities.contains(m.capabilities[j]) by {
        lemma_kept_iff(m, m.capabilities[j], m.capabilities[j]);
    }
    assert forall|j: int|
        0 <= j < m.extensions.len() && (#[trigger] m.extensions[j]).operands[0] != OperandView::LiteralString(
            "SPV_KHR_float_controls"@,
        ) && m.extensions[j].operands[0] != OperandView::LiteralString("SPV_KHR_float_controls2"@)
            implies pruned(m).extensions.contains(m.extensions[j]) by {
        let e = m.extensions[j];
        lemma_kept_iff(m, e, e);
        assert(e.operands[0] == OperandView::LiteralString(e.operands[0]->LiteralString_0));
    }
}

/// The capability that serves each mode of the first float-controls
/// version.
pub open spec fn serves_mode(cap: u32, mode: u32) -> bool {
    ||| cap == CAP_DENORM_PRESERVE && mode == MODE_DENORM_PRESERVE
    ||| cap == CAP_DENORM_FLUSH_TO_ZERO && mode == MODE_DENORM_FLUSH_TO_ZERO
    ||| cap == CAP_ROUNDING_MODE_RTE && mode == MODE_ROUNDING_MODE_RTE
    ||| cap == CAP_ROUNDING_MODE_RTZ && mode == MODE_ROUNDING_MODE_RTZ
    ||| cap == CAP_SIGNED_ZERO_INF_NAN_PRESERVE && mode == MODE_SIGNED_ZERO_INF_NAN_PRESERVE
}

/// A denormal, rounding or signed-zero capability declaration survives
/// pruning exactly when some execution mode of the module is of the kind it
/// serves.
pub proof fn lemma_prune_keeps_capability_iff_mode(m: ModuleView, cap: u32, mode: u32)
    requires
        can_prune(m),
        serves_mode(cap, mode),
    ensures
        forall|j: int|
            0 <= j < m.capabilities.len() && (#[trigger] m.capabilities[j]).operands[0]
                == OperandView::Capability(cap) ==> (pruned(m).capabilities.contains(m.capabilities[j])
                <==> exists|i: int|
                0 <= i < m.execution_modes.len() && (#[trigger] m.execution_modes[i]).operands.len() >= 2
                    && m.execution_modes[i].operands[1] == OperandView::ExecutionMode(mode)),
{
    assert forall|j: int|
        0 <= j < m.capabilities.len() && (#[trigger] m.capabilities[j]).operands[0] == OperandView::Capability(
            cap,
        ) implies (pruned(m).capabilities.contains(m.capabilities[j]) <==> exists|i: int|
        0 <= i < m.execution_modes.len() && (#[trigger] m.execution_modes[i]).operands.len() >= 2
            && m.execution_modes[i].operands[1] == OperandView::ExecutionMode(mode)) by {
        lemma_kept_iff(m, m.capabilities[j], m.capabilities[j]);
        assert(declares_mode(m.execution_modes, mode) == exists|i: int|
            0 <= i < m.execution_modes.len() && (#[trigger] m.execution_modes[i]).operands.len() >= 2
                && m.execution_modes[i].operands[1] == OperandView::ExecutionMode(mode));
    }
}

/// The first float-controls extension survives pruning exactly when some
/// execution mode of the module is a denormal, rounding or
/// signed-zero/Inf/NaN mode: it serves the legacy round-toward-zero and
/// signed-zero modes too.
pub proof fn lemma_prune_keeps_first_extension_iff_modes(m: ModuleView)
    requires
        can_prune(m),
    ensures
        forall|j: int|
            0 <= j < m.extensions.len() && (#[trigger] m.extensions[j]).operands[0]
                == OperandView::LiteralString("SPV_KHR_float_controls"@) ==> (pruned(m).extensions.contains(
                m.extensions[j],
            ) <==> exists|i: int|
                0 <= i < m.execution_modes.len() && (#[trigger] m.execution_modes[i]).operands.len() >= 2 && {
                    let k = m.execution_modes[i].operands[1];
                    ||| k == OperandView::ExecutionMode(MODE_DENORM_PRESERVE)
                    ||| k == OperandView::ExecutionMode(MODE_DENORM_FLUSH_TO_ZERO)
                    ||| k == OperandView::ExecutionMode(MODE_ROUNDING_MODE_RTE)
                    ||| k == OperandView::ExecutionMode(MODE_ROUNDING_MODE_RTZ)
                    ||| k == OperandView::ExecutionMode(MODE_SIGNED_ZERO_INF_NAN_PRESERVE)
                }),
{
    let modes = m.execution_modes;
    assert forall|j: int|
        0 <= j < m.extensions.len() && (#[trigger] m.extensions[j]).operands[0] == OperandView::LiteralString(
            "SPV_KHR_float_controls"@,
        ) implies (pruned(m).extensions.contains(m.extensions[j]) <==> exists|i: int|
        0 <= i < modes.len() && (#[trigger] modes[i]).operands.len() >= 2 && {
            let k = modes[i].operands[1];
            ||| k == OperandView::ExecutionMode(MODE_DENORM_PRESERVE)
            ||| k == OperandView::ExecutionMode(MODE_DENORM_FLUSH_TO_ZERO)
            ||| k == OperandView::ExecutionMode(MODE_ROUNDING_MODE_RTE)
            ||| k == OperandView::ExecutionMode(MODE_ROUNDING_MODE_RTZ)
            ||| k == OperandView::ExecutionMode(MODE_SIGNED_ZERO_INF_NAN_PRESERVE)
        }) by {
        let e = m.extensions[j];
        lemma_kept_iff(m, e, e);
        let u = float_controls_in_use(m);
        if exists|i: int|
            0 <= i < modes.len() && (#[trigger] modes[i]).operands.len() >= 2 && {
                let k = modes[i].operands[1];
                ||| k == OperandView::ExecutionMode(MODE_DENORM_PRESERVE)
                ||| k == OperandView::ExecutionMode(MODE_DENORM_FLUSH_TO_ZERO)
                ||| k == OperandView::ExecutionMode(MODE_ROUNDING_MODE_RTE)
                ||| k == OperandView::ExecutionMode(MODE_ROUNDING_MODE_RTZ)
                ||| k == OperandView::ExecutionMode(MODE_SIGNED_ZERO_INF_NAN_PRESERVE)
            } {
            let i = choose|i: int|
                0 <= i < modes.len() && (#[trigger] modes[i]).operands.len() >= 2 && {
                    let k = modes[i].operands[1];
                    ||| k == OperandView::ExecutionMode(MODE_DENORM_PRESERVE)
                    ||| k == OperandView::ExecutionMode(MODE_DENORM_FLUSH_TO_ZERO)
                    ||| k == OperandView::ExecutionMode(MODE_ROUNDING_MODE_RTE)
                    ||| k == OperandView::ExecutionMode(MODE_ROUNDING_MODE_RTZ)
                    ||| k == OperandView::ExecutionMode(MODE_SIGNED_ZERO_INF_NAN_PRESERVE)
                };
            assert(is_mode(modes[i], modes[i].operands[1]->ExecutionMode_0));
            assert(u.preserve || u.flush || u.rte || u.rtz || u.preserve_special);
        }
        if u.preserve || u.flush || u.rte || u.rtz || u.preserve_special {
            let kind = if u.preserve {
                MODE_DENORM_PRESERVE
            } else if u.flush {
                MODE_DENORM_FLUSH_TO_ZERO
            } else if u.rte {
                MODE_ROUNDING_MODE_RTE
            } else if u.rtz {
                MODE_ROUNDING_MODE_RTZ
            } else {
                MODE_SIGNED_ZERO_INF_NAN_PRESERVE
            };
            assert(declares_mode(modes, kind));
            let i = choose|i: int| 0 <= i < modes.len() && is_mode(#[trigger] modes[i], kind);
            assert(modes[i].operands.len() >= 2);
        }
    }
}

/// The second float-controls capability and extension survive pruning
/// exactly when the module still has a fast-math default mode or an
/// annotation, at any position, that decorates an operation with fast-math
/// flags.
pub proof fn lemma_prune_keeps_controls2_iff_fast_math(m: ModuleView)
    requires
        can_prune(m),
    ensures
        ({
            let needed = (exists|i: int|
                0 <= i < m.execution_modes.len() && (#[trigger] m.execution_modes[i]).operands.len() >= 2
                    && m.execution_modes[i].operands[1] == OperandView::ExecutionMode(MODE_FP_FAST_MATH_DEFAULT))
                || (exists|i: int|
                0 <= i < m.annotations.len() && (#[trigger] m.annotations[i]).operands.len() >= 2
                    && m.annotations[i].operands[1] == OperandView::Decoration(DECORATION_FP_FAST_MATH_MODE));
            &&& forall|j: int|
                0 <= j < m.capabilities.len() && (#[trigger] m.capabilities[j]).operands[0]
                    == OperandView::Capability(CAP_FLOAT_CONTROLS2) ==> (pruned(m).capabilities.contains(
                    m.capabilities[j],
                ) <==> needed)
            &&& forall|j: int|
                0 <= j < m.extensions.len() && (#[trigger] m.extensions[j]).operands[0]
                    == OperandView::LiteralString("SPV_KHR_float_controls2"@) ==> (pruned(m).extensions.contains(
                    m.extensions[j],
                ) <==> needed)
        }),
{
    let u = float_controls_in_use(m);
    let d = exists|i: int|
        0 <= i < m.execution_modes.len() && (#[trigger] m.execution_modes[i]).operands.len() >= 2
            && m.execution_modes[i].operands[1] == OperandView::ExecutionMode(MODE_FP_FAST_MATH_DEFAULT);
    let a = exists|i: int|
        0 <= i < m.annotations.len() && (#[trigger] m.annotations[i]).operands.len() >= 2
            && m.annotations[i].operands[1] == OperandView::Decoration(DECORATION_FP_FAST_MATH_MODE);
    assert(declares_mode(m.execution_modes, MODE_FP_FAST_MATH_DEFAULT) == d);
    assert(fast_math_decorated(m.annotations) == a) by {
        if a {
            let i = choose|i: int|
                0 <= i < m.annotations.len() && (#[trigger] m.annotations[i]).operands.len() >= 2
                    && m.annotations[i].operands[1] == OperandView::Decoration(DECORATION_FP_FAST_MATH_MODE);
            assert(m.annotations[i].operands.len() > 1);
        }
        if fast_math_decorated(m.annotations) {
            let i = choose|i: int|
                0 <= i < m.annotations.len() && (#[trigger] m.annotations[i]).operands.len() > 1
                    && m.annotations[i].operands[1] == OperandView::Decoration(DECORATION_FP_FAST_MATH_MODE);
            assert(m.annotations[i].operands.len() >= 2);
        }
    }
    assert(u.controls2 == (d || a));
    assert forall|j: int|
        0 <= j < m.capabilities.len() && (#[trigger] m.capabilities[j]).operands[0] == OperandView::Capability(
            CAP_FLOAT_CONTROLS2,
        ) implies (pruned(m).capabilities.contains(m.capabilities[j]) <==> (d || a)) by {
        lemma_kept_iff(m, m.capabilities[j], m.capabilities[j]);
    }
    assert forall|j: int|
        0 <= j < m.extensions.len() && (#[trigger] m.extensions[j]).operands[0] == OperandView::LiteralString(
            "SPV_KHR_float_controls2"@,
        ) implies (pruned(m).extensions.contains(m.extensions[j]) <==> (d || a)) by {
        let e = m.extensions[j];
        lemma_kept_iff(m, e, e);
        assert(e.operands[0]->LiteralString_0 == "SPV_KHR_float_controls2"@);
        assert("SPV_KHR_float_controls2"@ != "SPV_KHR_float_controls"@) by {
            reveal_strlit("SPV_KHR_float_controls2");
            reveal_strlit("SPV_KHR_float_controls");
            assert("SPV_KHR_float_controls2"@.len() != "SPV_KHR_float_controls"@.len());
        }
    }
}

} // verus!
