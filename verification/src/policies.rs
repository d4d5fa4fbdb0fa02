//! Saving the fast-math defaults of entry points out of a module.

use vstd::prelude::*;
use crate::codes::{MODE_FP_FAST_MATH_DEFAULT, OP_CONSTANT_NULL};
use crate::model::{
    insts_view, is_first, lemma_first_unique, Instruction, InstructionView, Module, ModuleView,
    Operand, OperandView,
};

verus! {

/// `mode` sets the fast-math default of an entry point.
pub open spec fn is_fast_math_default(mode: InstructionView) -> bool {
    mode.operands.len() > 1 && mode.operands[1] == OperandView::ExecutionMode(MODE_FP_FAST_MATH_DEFAULT)
}

/// `i` is the first entry point whose id operand is `target`, and every
/// entry point up to it has an id operand.
pub open spec fn first_entry_with_id(entries: Seq<InstructionView>, target: OperandView, i: int) -> bool {
    &&& 0 <= i < entries.len()
    &&& entries[i].operands.len() >= 2
    &&& entries[i].operands[1] == target
    &&& forall|j: int|
        0 <= j < i ==> (#[trigger] entries[j]).operands.len() >= 2 && entries[j].operands[1] != target
}

/// `k` is the first declaration with result id `id`.
pub open spec fn first_with_result(decls: Seq<InstructionView>, id: u32, k: int) -> bool {
    &&& 0 <= k < decls.len()
    &&& decls[k].result_id == Some(id)
    &&& forall|j: int| 0 <= j < k ==> (#[trigger] decls[j]).result_id != Some(id)
}

/// There is at most one first entry point with a given id operand.
pub(crate) proof fn lemma_first_entry_with_id_unique(entries: Seq<InstructionView>, target: OperandView, i: int, j: int)
    requires
        first_entry_with_id(entries, target, i),
        first_entry_with_id(entries, target, j),
    ensures
        i == j,
{
    let p = |e: InstructionView| e.operands.len() >= 2 && e.operands[1] == target;
    assert(is_first(entries, p, i));
    assert(is_first(entries, p, j));
    lemma_first_unique(entries, p, i, j);
}

/// There is at most one first declaration with a given result id.
pub proof fn lemma_first_with_result_unique(decls: Seq<InstructionView>, id: u32, i: int, j: int)
    requires
        first_with_result(decls, id, i),
        first_with_result(decls, id, j),
    ensures
        i == j,
{
    let p = |d: InstructionView| d.result_id == Some(id);
    assert(is_first(decls, p, i));
    assert(is_first(decls, p, j));
    lemma_first_unique(decls, p, i, j);
}

/// The id operand of a fast-math default naming its flags constant.
pub open spec fn flags_constant_id(mode: InstructionView) -> u32 {
    mode.operands[3]->IdRef_0
}

/// A fast-math default can be saved: it names its flags constant by id, its
/// entry point can be found and has a name and an execution model, and the
/// flags constant can be found and is either null or a 32-bit literal.
pub open spec fn policy_decodable(m: ModuleView, mode: InstructionView) -> bool {
    &&& mode.operands.len() >= 4
    &&& mode.operands[3] is IdRef
    &&& exists|i: int| #[trigger]
        first_entry_with_id(m.entry_points, mode.operands[0], i) && {
            let e = m.entry_points[i];
            &&& e.operands.len() >= 3
            &&& e.operands[2] is LiteralString
            &&& e.operands[0] is ExecutionModel
        }
    &&& exists|k: int| #[trigger]
        first_with_result(m.types_global_values, flags_constant_id(mode), k) && {
            let c = m.types_global_values[k];
            c.opcode == OP_CONSTANT_NULL || (c.operands.len() >= 1 && c.operands[0] is LiteralBit32)
        }
}

/// The policy a fast-math default saves: the name and execution model of
/// its entry point, and its flags (zero for a null constant).
pub open spec fn decoded_policy(m: ModuleView, mode: InstructionView) -> (Seq<char>, u32, u32) {
    let i = choose|i: int| first_entry_with_id(m.entry_points, mode.operands[0], i);
    let e = m.entry_points[i];
    let k = choose|k: int| first_with_result(m.types_global_values, flags_constant_id(mode), k);
    let c = m.types_global_values[k];
    let flags = if c.opcode == OP_CONSTANT_NULL {
        0
    } else {
        c.operands[0]->LiteralBit32_0
    };
    (e.operands[2]->LiteralString_0, e.operands[0]->ExecutionModel_0, flags)
}

/// The policies saved from the fast-math defaults among `modes`, in order.
pub open spec fn saved_policies(m: ModuleView, modes: Seq<InstructionView>) -> Seq<(Seq<char>, u32, u32)>
    decreases modes.len(),
{
    if modes.len() == 0 {
        Seq::empty()
    } else {
        let rest = saved_policies(m, modes.drop_last());
        if is_fast_math_default(modes.last()) {
            rest.push(decoded_policy(m, modes.last()))
        } else {
            rest
        }
    }
}

/// The modes among `modes` that are not fast-math defaults, in order.
pub open spec fn other_modes(modes: Seq<InstructionView>) -> Seq<InstructionView>
    decreases modes.len(),
{
    if modes.len() == 0 {
        Seq::empty()
    } else {
        let rest = other_modes(modes.drop_last());
        if is_fast_math_default(modes.last()) {
            rest
        } else {
            rest.push(modes.last())
        }
    }
}

/// Every fast-math default of the module can be saved.
pub open spec fn can_take(m: ModuleView) -> bool {
    forall|k: int|
        0 <= k < m.execution_modes.len() && is_fast_math_default(#[trigger] m.execution_modes[k])
            ==> policy_decodable(m, m.execution_modes[k])
}

/// The saved policies with their names as character sequences.
pub open spec fn taken_view(policies: Seq<(String, u32, u32)>) -> Seq<(Seq<char>, u32, u32)> {
    policies.map_values(|p: (String, u32, u32)| (p.0@, p.1, p.2))
}

/// Decodes the policy of one fast-math default.
fn decode_policy(m: &Module, mode: &Instruction) -> (p: (String, u32, u32))
    requires
        policy_decodable(m@, mode@),
    ensures
        (p.0@, p.1, p.2) == decoded_policy(m@, mode@),
{
    let ghost mv = m@;
    let ghost i0 = choose|i: int| #[trigger]
        first_entry_with_id(mv.entry_points, mode@.operands[0], i) && {
            let e = mv.entry_points[i];
            &&& e.operands.len() >= 3
            &&& e.operands[2] is LiteralString
            &&& e.operands[0] is ExecutionModel
        };
    let ghost k0 = choose|k: int| #[trigger]
        first_with_result(mv.types_global_values, flags_constant_id(mode@), k) && {
            let c = mv.types_global_values[k];
            c.opcode == OP_CONSTANT_NULL || (c.operands.len() >= 1 && c.operands[0] is LiteralBit32)
        };
    assert forall|i: int| first_entry_with_id(mv.entry_points, mode@.operands[0], i) implies i == i0 by {
        lemma_first_entry_with_id_unique(mv.entry_points, mode@.operands[0], i, i0);
    }
    assert forall|k: int| first_with_result(mv.types_global_values, flags_constant_id(mode@), k) implies k == k0 by {
        lemma_first_with_result_unique(mv.types_global_values, flags_constant_id(mode@), k, k0);
    }
    let target = &mode.operands[0];
    assert(mode@.operands[0] == mode.operands@[0]@);
    let mut i: usize = 0;
    while !m.entry_points[i].operands[1].equals(target)
        invariant
            mv == m@,
            first_entry_with_id(mv.entry_points, mode@.operands[0], i0),
            i <= i0,
            i0 < m.entry_points.len(),
            target@ == mode@.operands[0],
        decreases i0 - i,
    {
        assert(mv.entry_points[i as int] == m.entry_points@[i as int]@);
        assert(mv.entry_points[i as int].operands[1] == m.entry_points@[i as int].operands@[1]@);
        assert(i < i0);
        i = i + 1;
    }
    assert(mv.entry_points[i as int] == m.entry_points@[i as int]@);
    assert(mv.entry_points[i as int].operands[1] == m.entry_points@[i as int].operands@[1]@);
    assert(i == i0) by {
        if i < i0 {
            assert(mv.entry_points[i as int].operands[1] != mode@.operands[0]);
        }
    }
    assert(mv.entry_points[i as int] == m.entry_points@[i as int]@);
    let entry = &m.entry_points[i];
    let id = match &mode.operands[3] {
        Operand::IdRef(x) => *x,
        _ => 0,
    };
    assert(mode@.operands[3] == mode.operands@[3]@);
    let mut k: usize = 0;
    while m.types_global_values[k].result_id != Some(id)
        invariant
            mv == m@,
            first_with_result(mv.types_global_values, id, k0),
            k <= k0,
            k0 < m.types_global_values.len(),
        decreases k0 - k,
    {
        assert(mv.types_global_values[k as int] == m.types_global_values@[k as int]@);
        assert(k < k0);
        k = k + 1;
    }
    assert(mv.types_global_values[k as int] == m.types_global_values@[k as int]@);
    assert(k == k0) by {
        if k < k0 {
            assert(mv.types_global_values[k as int].result_id != Some(id));
        }
    }
    let constant = &m.types_global_values[k];
    assert(mv.types_global_values[k as int] == constant@);
    let flags = if constant.opcode == OP_CONSTANT_NULL {
        0
    } else {
        assert(constant@.operands[0] == constant.operands@[0]@);
        match &constant.operands[0] {
            Operand::LiteralBit32(x) => *x,
            _ => 0,
        }
    };
    assert(entry@.operands[2] == entry.operands@[2]@);
    assert(entry@.operands[0] == entry.operands@[0]@);
    let name = match &entry.operands[2] {
        Operand::LiteralString(s) => s.clone(),
        _ => String::new(),
    };
    let model = match &entry.operands[0] {
        Operand::ExecutionModel(x) => *x,
        _ => 0,
    };
    (name, model, flags)
}

/// Whether a mode sets the fast-math default of an entry point.
fn sets_fast_math_default(mode: &Instruction) -> (r: bool)
    ensures
        r == is_fast_math_default(mode@),
{
    if mode.operands.len() > 1 {
        assert(mode@.operands[1] == mode.operands@[1]@);
        match &mode.operands[1] {
            Operand::ExecutionMode(x) => *x == MODE_FP_FAST_MATH_DEFAULT,
            _ => false,
        }
    } else {
        false
    }
}

/// The index of the first entry point whose id operand is `target`, if the
/// search finds it before an entry point without an id operand.
fn entry_with_id(entries: &Vec<Instruction>, target: &Operand) -> (r: Option<usize>)
    ensures
        match r {
            Some(i) => first_entry_with_id(insts_view(entries@), target@, i as int),
            None => forall|i: int| !first_entry_with_id(insts_view(entries@), target@, i),
        },
{
    let ghost ev = insts_view(entries@);
    let mut i: usize = 0;
    while i < entries.len()
        invariant
            ev == insts_view(entries@),
            i <= entries.len(),
            forall|j: int|
                0 <= j < i ==> (#[trigger] ev[j]).operands.len() >= 2 && ev[j].operands[1] != target@,
        decreases entries.len() - i,
    {
        let e = &entries[i];
        assert(ev[i as int] == e@);
        if e.operands.len() < 2 {
            assert forall|k: int| !first_entry_with_id(ev, target@, k) by {
                if first_entry_with_id(ev, target@, k) && k > i {
                    assert(ev[i as int].operands.len() >= 2);
                }
            }
            return None;
        }
        assert(e@.operands[1] == e.operands@[1]@);
        if e.operands[1].equals(target) {
            return Some(i);
        }
        i = i + 1;
    }
    None
}

/// The index of the first declaration with result id `id`, if any.
fn declaration_of(decls: &Vec<Instruction>, id: u32) -> (r: Option<usize>)
    ensures
        match r {
            Some(k) => first_with_result(insts_view(decls@), id, k as int),
            None => forall|k: int| !first_with_result(insts_view(decls@), id, k),
        },
{
    let ghost dv = insts_view(decls@);
    let mut k: usize = 0;
    while k < decls.len()
        invariant
            dv == insts_view(decls@),
            k <= decls.len(),
            forall|j: int| 0 <= j < k ==> (#[trigger] dv[j]).result_id != Some(id),
        decreases decls.len() - k,
    {
        assert(dv[k as int] == decls@[k as int]@);
        if decls[k].result_id == Some(id) {
            return Some(k);
        }
        k = k + 1;
    }
    None
}

/// Whether the fast-math default `mode` can be saved.
fn can_decode_policy(m: &Module, mode: &Instruction) -> (r: bool)
    ensures
        r == policy_decodable(m@, mode@),
{
    let ghost mv = m@;
    if mode.operands.len() < 4 {
        return false;
    }
    assert(mode@.operands[3] == mode.operands@[3]@);
    assert(mode@.operands[0] == mode.operands@[0]@);
    let id = match &mode.operands[3] {
        Operand::IdRef(x) => *x,
        _ => {
            return false;
        },
    };
    let ei = entry_with_id(&m.entry_points, &mode.operands[0]);
    let entry_ok = match ei {
        Some(i) => {
            let e = &m.entry_points[i];
            assert(mv.entry_points[i as int] == e@);
            if e.operands.len() >= 3 {
                assert(e@.operands[2] == e.operands@[2]@);
                assert(e@.operands[0] == e.operands@[0]@);
                let named = match &e.operands[2] {
                    Operand::LiteralString(_) => true,
                    _ => false,
                };
                let modeled = match &e.operands[0] {
                    Operand::ExecutionModel(_) => true,
                    _ => false,
                };
                named && modeled
            } else {
                false
            }
        },
        None => false,
    };
    proof {
        if let Some(i0) = ei {
            assert forall|i: int| first_entry_with_id(mv.entry_points, mode@.operands[0], i) implies i
                == i0 by {
                lemma_first_entry_with_id_unique(mv.entry_points, mode@.operands[0], i, i0 as int);
            }
        }
    }
    let ci = declaration_of(&m.types_global_values, id);
    let constant_ok = match ci {
        Some(k) => {
            let c = &m.types_global_values[k];
            assert(mv.types_global_values[k as int] == c@);
            if c.opcode == OP_CONSTANT_NULL {
                true
            } else if c.operands.len() >= 1 {
                assert(c@.operands[0] == c.operands@[0]@);
                match &c.operands[0] {
                    Operand::LiteralBit32(_) => true,
                    _ => false,
                }
            } else {
                false
            }
        },
        None => false,
    };
    proof {
        if let Some(k0) = ci {
            assert forall|k: int| first_with_result(mv.types_global_values, id, k) implies k == k0 by {
                lemma_first_with_result_unique(mv.types_global_values, id, k, k0 as int);
            }
        }
        assert(flags_constant_id(mode@) == id);
    }
    entry_ok && constant_ok
}

/// Whether every fast-math default of the module can be saved, so that
/// [`take_policies`] may be called on it.
pub fn can_take_policies(m: &Module) -> (r: bool)
    ensures
        r == can_take(m@),
{
    let ghost mv = m@;
    let mut k: usize = 0;
    while k < m.execution_modes.len()
        invariant
            mv == m@,
            k <= m.execution_modes.len(),
            forall|j: int|
                0 <= j < k && is_fast_math_default(#[trigger] mv.execution_modes[j]) ==> policy_decodable(
                    mv,
                    mv.execution_modes[j],
                ),
        decreases m.execution_modes.len() - k,
    {
        let mode = &m.execution_modes[k];
        assert(mv.execution_modes[k as int] == mode@);
        if sets_fast_math_default(mode) && !can_decode_policy(m, mode) {
            return false;
        }
        k = k + 1;
    }
    true
}

/// Removes the fast-math defaults from the module's execution modes and
/// returns the policies they set, each as the name and execution model of
/// its entry point and its flags, so that they survive passes that renumber
/// ids.
pub fn take_policies(module: &mut Module) -> (policies: Vec<(String, u32, u32)>)
    requires
        can_take(old(module)@),
    ensures
        taken_view(policies@) == saved_policies(old(module)@, old(module)@.execution_modes),
        final(module)@ == (ModuleView {
            execution_modes: other_modes(old(module)@.execution_modes),
            ..old(module)@
        }),
{
    let ghost m0 = module@;
    let mut policies: Vec<(String, u32, u32)> = Vec::new();
    let mut kept: Vec<Instruction> = Vec::new();
    let mut modes: Vec<Instruction> = Vec::new();
    std::mem::swap(&mut modes, &mut module.execution_modes);
    assert(insts_view(module.execution_modes@) =~= Seq::<InstructionView>::empty());
    assert(module@ =~= (ModuleView { execution_modes: Seq::empty(), ..m0 }));
    let ghost all = modes@;
    assert(insts_view(all) == m0.execution_modes);
    assert(m0.execution_modes.subrange(0, 0) =~= Seq::<InstructionView>::empty());
    let iter = modes.into_iter();
    for mode in it: iter
        invariant
            it.seq() == all,
            m0.execution_modes == insts_view(all),
            can_take(m0),
            module@ == (ModuleView { execution_modes: Seq::empty(), ..m0 }),
            taken_view(policies@) == saved_policies(m0, m0.execution_modes.subrange(0, it.index() as int)),
            insts_view(kept@) == other_modes(m0.execution_modes.subrange(0, it.index() as int)),
    {
        let ghost k = it.index() as int;
        let ghost pre = m0.execution_modes.subrange(0, k);
        let ghost post = m0.execution_modes.subrange(0, k + 1);
        assert(post.drop_last() =~= pre);
        assert(mode == all[k]);
        assert(post.last() == mode@);
        if sets_fast_math_default(&mode) {
            let ghost mm = ModuleView { execution_modes: Seq::empty(), ..m0 };
            assert(m0.execution_modes[k] == mode@);
            assert(policy_decodable(m0, mode@));
            assert(policy_decodable(mm, mode@));
            let p = decode_policy(module, &mode);
            let ghost before = policies@;
            policies.push(p);
            assert(taken_view(policies@) =~= taken_view(before).push((p.0@, p.1, p.2)));
        } else {
            let ghost before = kept@;
            kept.push(mode);
            assert(insts_view(kept@) =~= insts_view(before).push(mode@));
        }
    }
    assert(m0.execution_modes.subrange(0, all.len() as int) =~= m0.execution_modes);
    module.execution_modes = kept;
    policies
}


/// The modes that taking keeps are exactly the modes that are not fast-math
/// defaults, in their order: none of them is a fast-math default, each comes
/// from `modes`, and together with the saved policies they account for every
/// mode of `modes`.
pub proof fn lemma_take_keeps_other_modes(m: ModuleView, modes: Seq<InstructionView>)
    ensures
        forall|k: int|
            0 <= k < other_modes(modes).len() ==> !is_fast_math_default(
                #[trigger] other_modes(modes)[k],
            ) && modes.contains(other_modes(modes)[k]),
        forall|k: int|
            0 <= k < modes.len() && !is_fast_math_default(#[trigger] modes[k]) ==> other_modes(
                modes,
            ).contains(modes[k]),
        other_modes(modes).len() + saved_policies(m, modes).len() == modes.len(),
    decreases modes.len(),
{
    if modes.len() > 0 {
        let rest = modes.drop_last();
        lemma_take_keeps_other_modes(m, rest);
        let o = other_modes(modes);
        let orest = other_modes(rest);
        assert forall|k: int| 0 <= k < o.len() implies !is_fast_math_default(#[trigger] o[k])
            && modes.contains(o[k]) by {
            if k < orest.len() {
                assert(o[k] == orest[k]);
                let j = choose|j: int| 0 <= j < rest.len() && rest[j] == orest[k];
                assert(modes[j] == o[k]);
            } else {
                assert(o[k] == modes.last());
                assert(modes[modes.len() - 1] == o[k]);
            }
        }
        assert forall|k: int| 0 <= k < modes.len() && !is_fast_math_default(#[trigger] modes[k]) implies o.contains(
            modes[k],
        ) by {
            if k < rest.len() {
                assert(rest[k] == modes[k]);
                assert(!is_fast_math_default(rest[k]));
                let j = choose|j: int| 0 <= j < orest.len() && orest[j] == rest[k];
                assert(o[j] == modes[k]);
            } else {
                assert(o[o.len() - 1] == modes[k]);
            }
        }
    }
}

/// Taking the policies of a module whose policies were already taken finds
/// none and changes nothing.
pub proof fn lemma_take_idempotent(m: ModuleView)
    ensures
        ({
            let taken = ModuleView { execution_modes: other_modes(m.execution_modes), ..m };
            &&& can_take(taken)
            &&& saved_policies(taken, taken.execution_modes) == Seq::<(Seq<char>, u32, u32)>::empty()
            &&& other_modes(taken.execution_modes) == taken.execution_modes
        }),
{
    let taken = ModuleView { execution_modes: other_modes(m.execution_modes), ..m };
    lemma_take_keeps_other_modes(m, m.execution_modes);
    lemma_no_defaults_kept(taken, taken.execution_modes);
}

pub(crate) proof fn lemma_no_defaults_kept(m: ModuleView, modes: Seq<InstructionView>)
    requires
        forall|k: int| 0 <= k < modes.len() ==> !is_fast_math_default(#[trigger] modes[k]),
    ensures
        saved_policies(m, modes) == Seq::<(Seq<char>, u32, u32)>::empty(),
        other_modes(modes) == modes,
    decreases modes.len(),
{
    if modes.len() > 0 {
        let rest = modes.drop_last();
        assert forall|k: int| 0 <= k < rest.len() implies !is_fast_math_default(#[trigger] rest[k]) by {
            assert(rest[k] == modes[k]);
        }
        lemma_no_defaults_kept(m, rest);
        assert(!is_fast_math_default(modes[modes.len() - 1]));
        assert(rest.push(modes.last()) =~= modes);
    } else {
        assert(modes =~= Seq::<InstructionView>::empty());
    }
}

} // verus!
