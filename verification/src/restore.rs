//! Re-emitting saved floating-point policies as execution modes for the float
//! widths that each entry point reaches.

use vstd::prelude::*;
use crate::codes::{
    CAP_DENORM_FLUSH_TO_ZERO, CAP_DENORM_PRESERVE, CAP_ROUNDING_MODE_RTE, MODE_DENORM_FLUSH_TO_ZERO,
    MODE_DENORM_PRESERVE, MODE_FP_FAST_MATH_DEFAULT, MODE_ROUNDING_MODE_RTE, OP_CAPABILITY,
    OP_CONSTANT, OP_EXECUTION_MODE, OP_EXECUTION_MODE_ID, OP_EXTENSION, OP_TYPE_FLOAT, OP_TYPE_INT,
};
use crate::graph::{
    dependency_graph, float_widths_given, functions_identified, functions_insts, global_insts,
    lemma_widths_given_split, module_edges, module_floats, module_insts,
};
use crate::model::{
    insts_view, is_first, lemma_first_unique, operands_view, FunctionView, Instruction, InstructionView, Module, ModuleView, Operand,
    OperandView,
};
use crate::listing::{is_width_listing, lemma_width_listing_exists, sorted_widths, width_listing};
use crate::reach::{
    edges_view, entry_float_widths, lemma_entry_float_widths, lemma_entry_float_widths_finite,
    reachable_widths, reaches,
};

verus! {

// ----- declaring an integer type and a constant -----

/// The operands of an integer type declaration.
pub open spec fn int_type_operands(width: u32, signedness: u32) -> Seq<OperandView> {
    seq![OperandView::LiteralBit32(width), OperandView::LiteralBit32(signedness)]
}

/// `t` declares the integer type of this width and signedness, with a result id.
pub open spec fn declares_int(t: InstructionView, width: u32, signedness: u32) -> bool {
    &&& t.opcode == OP_TYPE_INT
    &&& t.operands == int_type_operands(width, signedness)
    &&& t.result_id is Some
}

/// `k` is the first declaration of the integer type among `types`.
pub open spec fn first_int_decl(types: Seq<InstructionView>, width: u32, signedness: u32, k: int) -> bool {
    &&& 0 <= k < types.len()
    &&& declares_int(types[k], width, signedness)
    &&& forall|j: int| 0 <= j < k ==> !declares_int(#[trigger] types[j], width, signedness)
}

proof fn lemma_first_int_decl_unique(types: Seq<InstructionView>, width: u32, signedness: u32, i: int, j: int)
    requires
        first_int_decl(types, width, signedness, i),
        first_int_decl(types, width, signedness, j),
    ensures
        i == j,
{
    let p = |t: InstructionView| declares_int(t, width, signedness);
    assert(is_first(types, p, i));
    assert(is_first(types, p, j));
    lemma_first_unique(types, p, i, j);
}

/// Declaring the integer type when `next` is the next free id: the id of its
/// first declaration where there is one, otherwise `next`, declared at the
/// end.  Gives the id, the declarations after, and the next free id after.
pub open spec fn declare_int(types: Seq<InstructionView>, next: int, width: u32, signedness: u32) -> (
    u32,
    Seq<InstructionView>,
    int,
) {
    if exists|k: int| first_int_decl(types, width, signedness, k) {
        let k = choose|k: int| first_int_decl(types, width, signedness, k);
        (types[k].result_id->Some_0, types, next)
    } else {
        (
            next as u32,
            types.push(
                InstructionView {
                    opcode: OP_TYPE_INT,
                    result_type: None,
                    result_id: Some(next as u32),
                    operands: int_type_operands(width, signedness),
                },
            ),
            next + 1,
        )
    }
}

/// A 32-bit constant declaration.
pub open spec fn constant_inst(result_type: u32, id: u32, value: u32) -> InstructionView {
    InstructionView {
        opcode: OP_CONSTANT,
        result_type: Some(result_type),
        result_id: Some(id),
        operands: seq![OperandView::LiteralBit32(value)],
    }
}

/// Declares the integer type of this width and signedness unless `types`
/// already declares it, allocating a fresh id for a new declaration.
fn declare_int_type(types: &mut Vec<Instruction>, next_id: &mut u32, width: u32, signedness: u32) -> (id: u32)
    requires
        (exists|k: int| first_int_decl(insts_view(old(types)@), width, signedness, k)) || *old(next_id) < u32::MAX,
    ensures
        (id, insts_view(final(types)@), *final(next_id) as int) == declare_int(
            insts_view(old(types)@),
            *old(next_id) as int,
            width,
            signedness,
        ),
{
    let ghost tv = insts_view(types@);
    let mut k: usize = 0;
    while k < types.len()
        invariant
            tv == insts_view(types@),
            k <= types.len(),
            forall|j: int| 0 <= j < k ==> !declares_int(#[trigger] tv[j], width, signedness),
        decreases types.len() - k,
    {
        let t = &types[k];
        assert(tv[k as int] == t@);
        if t.opcode == OP_TYPE_INT && t.operands.len() == 2 {
            let same = match (&t.operands[0], &t.operands[1]) {
                (Operand::LiteralBit32(a), Operand::LiteralBit32(b)) => *a == width && *b == signedness,
                _ => false,
            };
            assert(same == (t@.operands =~= int_type_operands(width, signedness)));
            assert(t@.operands.len() == 2);
            if same {
                match t.result_id {
                    Some(id) => {
                        assert(first_int_decl(tv, width, signedness, k as int));
                        assert forall|k2: int| first_int_decl(tv, width, signedness, k2) implies k2 == k by {
                            lemma_first_int_decl_unique(tv, width, signedness, k2, k as int);
                        }
                        return id;
                    },
                    None => {},
                }
            }
        }
        assert(t@.operands.len() == t.operands.len());
        assert(!declares_int(tv[k as int], width, signedness));
        k = k + 1;
    }
    let id = *next_id;
    *next_id = *next_id + 1;
    let mut ops: Vec<Operand> = Vec::new();
    ops.push(Operand::LiteralBit32(width));
    ops.push(Operand::LiteralBit32(signedness));
    types.push(Instruction { opcode: OP_TYPE_INT, result_type: None, result_id: Some(id), operands: ops });
    assert(operands_view(ops@) =~= int_type_operands(width, signedness));
    assert(insts_view(types@) =~= tv.push(
        InstructionView {
            opcode: OP_TYPE_INT,
            result_type: None,
            result_id: Some(id),
            operands: int_type_operands(width, signedness),
        },
    ));
    id
}

/// Declares a 32-bit constant of the given type and value under a fresh id.
fn declare_constant_bit32(types: &mut Vec<Instruction>, next_id: &mut u32, result_type: u32, value: u32) -> (id: u32)
    requires
        *old(next_id) < u32::MAX,
    ensures
        id == *old(next_id),
        *final(next_id) == *old(next_id) + 1,
        insts_view(final(types)@) == insts_view(old(types)@).push(constant_inst(result_type, id, value)),
{
    let id = *next_id;
    *next_id = *next_id + 1;
    let mut ops: Vec<Operand> = Vec::new();
    ops.push(Operand::LiteralBit32(value));
    let ghost before = types@;
    types.push(Instruction { opcode: OP_CONSTANT, result_type: Some(result_type), result_id: Some(id), operands: ops });
    assert(operands_view(ops@) =~= seq![OperandView::LiteralBit32(value)]);
    assert(insts_view(types@) =~= insts_view(before).push(constant_inst(result_type, id, value)));
    id
}


// ----- declaring an instruction once -----

/// Some instruction among `insts` has exactly these operands.
pub open spec fn declares_operands(insts: Seq<InstructionView>, ops: Seq<OperandView>) -> bool {
    exists|i: int| 0 <= i < insts.len() && (#[trigger] insts[i]).operands == ops
}

/// An instruction with no result type or result id.
pub open spec fn plain_inst(opcode: u32, ops: Seq<OperandView>) -> InstructionView {
    InstructionView { opcode, result_type: None, result_id: None, operands: ops }
}

/// `insts` with an instruction of these operands appended unless one is
/// already there.
pub open spec fn declare_once(insts: Seq<InstructionView>, opcode: u32, ops: Seq<OperandView>) -> Seq<
    InstructionView,
> {
    if declares_operands(insts, ops) {
        insts
    } else {
        insts.push(plain_inst(opcode, ops))
    }
}

/// Whether two operand lists are equal.
fn operands_equal(a: &Vec<Operand>, b: &Vec<Operand>) -> (r: bool)
    ensures
        r == (operands_view(a@) == operands_view(b@)),
{
    if a.len() != b.len() {
        assert(operands_view(a@).len() != operands_view(b@).len());
        return false;
    }
    let mut k: usize = 0;
    while k < a.len()
        invariant
            a.len() == b.len(),
            k <= a.len(),
            forall|j: int| 0 <= j < k ==> a@[j]@ == b@[j]@,
        decreases a.len() - k,
    {
        if !a[k].equals(&b[k]) {
            assert(operands_view(a@)[k as int] != operands_view(b@)[k as int]);
            return false;
        }
        k = k + 1;
    }
    assert(operands_view(a@) =~= operands_view(b@));
    true
}

/// Whether some instruction among `insts` has exactly the operands `ops`.
fn has_operands(insts: &Vec<Instruction>, ops: &Vec<Operand>) -> (r: bool)
    ensures
        r == declares_operands(insts_view(insts@), operands_view(ops@)),
{
    let ghost iv = insts_view(insts@);
    let mut k: usize = 0;
    while k < insts.len()
        invariant
            iv == insts_view(insts@),
            k <= insts.len(),
            forall|j: int| 0 <= j < k ==> (#[trigger] iv[j]).operands != operands_view(ops@),
        decreases insts.len() - k,
    {
        assert(iv[k as int] == insts@[k as int]@);
        if operands_equal(&insts[k].operands, ops) {
            return true;
        }
        k = k + 1;
    }
    false
}

/// Appends an instruction with these operands unless one is already there.
fn push_once(insts: &mut Vec<Instruction>, opcode: u32, ops: Vec<Operand>)
    ensures
        insts_view(final(insts)@) == declare_once(insts_view(old(insts)@), opcode, operands_view(ops@)),
{
    if !has_operands(insts, &ops) {
        let ghost before = insts@;
        let ghost ov = operands_view(ops@);
        insts.push(Instruction { opcode, result_type: None, result_id: None, operands: ops });
        assert(insts_view(insts@) =~= insts_view(before).push(plain_inst(opcode, ov)));
    }
}

// ----- the modes emitted for one width -----

/// The operands of an execution mode with one literal width.
pub open spec fn mode_operands(entry: u32, mode: u32, width: u32) -> Seq<OperandView> {
    seq![
        OperandView::IdRef(entry),
        OperandView::ExecutionMode(mode),
        OperandView::LiteralBit32(width),
    ]
}

/// The operands of the fast-math default mode of an entry point for a float
/// type, with the id of the constant holding the flags.
pub open spec fn fast_math_default_operands(entry: u32, ty: u32, flags_id: u32) -> Seq<OperandView> {
    seq![
        OperandView::IdRef(entry),
        OperandView::ExecutionMode(MODE_FP_FAST_MATH_DEFAULT),
        OperandView::IdRef(ty),
        OperandView::IdRef(flags_id),
    ]
}

/// The denormal mode of a policy: flushed to zero under fast math, preserved
/// otherwise.
pub open spec fn denorm_mode(fast: bool) -> u32 {
    if fast {
        MODE_DENORM_FLUSH_TO_ZERO
    } else {
        MODE_DENORM_PRESERVE
    }
}

/// The capability that the denormal mode of a policy needs.
pub open spec fn denorm_capability(fast: bool) -> u32 {
    if fast {
        CAP_DENORM_FLUSH_TO_ZERO
    } else {
        CAP_DENORM_PRESERVE
    }
}

/// The modes for one float width of an entry point: its fast-math default,
/// then its denormal mode and round-to-nearest-even unless already declared;
/// and the capabilities those need.
pub open spec fn emit_width(
    modes: Seq<InstructionView>,
    caps: Seq<u32>,
    entry: u32,
    fast: bool,
    flags_id: u32,
    width: u32,
    ty: u32,
) -> (Seq<InstructionView>, Seq<u32>) {
    let m1 = modes.push(
        plain_inst(OP_EXECUTION_MODE_ID, fast_math_default_operands(entry, ty, flags_id)),
    );
    let m2 = declare_once(m1, OP_EXECUTION_MODE, mode_operands(entry, denorm_mode(fast), width));
    let m3 = declare_once(m2, OP_EXECUTION_MODE, mode_operands(entry, MODE_ROUNDING_MODE_RTE, width));
    (m3, caps + seq![denorm_capability(fast), CAP_ROUNDING_MODE_RTE])
}

/// The modes for each listed width, in order.
pub open spec fn emit_widths(
    modes: Seq<InstructionView>,
    caps: Seq<u32>,
    entry: u32,
    fast: bool,
    flags_id: u32,
    listing: Seq<(u32, u32)>,
) -> (Seq<InstructionView>, Seq<u32>)
    decreases listing.len(),
{
    if listing.len() == 0 {
        (modes, caps)
    } else {
        let (m, c) = emit_widths(modes, caps, entry, fast, flags_id, listing.drop_last());
        emit_width(m, c, entry, fast, flags_id, listing.last().0, listing.last().1)
    }
}

fn mode_operand_vec(entry: u32, mode: u32, width: u32) -> (ops: Vec<Operand>)
    ensures
        operands_view(ops@) == mode_operands(entry, mode, width),
{
    let mut ops: Vec<Operand> = Vec::new();
    ops.push(Operand::IdRef(entry));
    ops.push(Operand::ExecutionMode(mode));
    ops.push(Operand::LiteralBit32(width));
    assert(operands_view(ops@) =~= mode_operands(entry, mode, width));
    ops
}

/// Appends the modes and capabilities for each listed width of an entry
/// point.
fn emit_modes(
    modes: &mut Vec<Instruction>,
    caps: &mut Vec<u32>,
    entry: u32,
    fast: bool,
    flags_id: u32,
    listing: &Vec<(u32, u32)>,
)
    ensures
        (insts_view(final(modes)@), final(caps)@) == emit_widths(
            insts_view(old(modes)@),
            old(caps)@,
            entry,
            fast,
            flags_id,
            listing@,
        ),
{
    let ghost m0 = insts_view(modes@);
    let ghost c0 = caps@;
    let mut k: usize = 0;
    while k < listing.len()
        invariant
            k <= listing.len(),
            (insts_view(modes@), caps@) == emit_widths(
                m0,
                c0,
                entry,
                fast,
                flags_id,
                listing@.subrange(0, k as int),
            ),
        decreases listing.len() - k,
    {
        let (width, ty) = listing[k];
        assert(listing@.subrange(0, k + 1).drop_last() =~= listing@.subrange(0, k as int));
        let ghost before = modes@;
        let mut fmd: Vec<Operand> = Vec::new();
        fmd.push(Operand::IdRef(entry));
        fmd.push(Operand::ExecutionMode(MODE_FP_FAST_MATH_DEFAULT));
        fmd.push(Operand::IdRef(ty));
        fmd.push(Operand::IdRef(flags_id));
        let ghost fv = operands_view(fmd@);
        assert(fv =~= fast_math_default_operands(entry, ty, flags_id));
        modes.push(Instruction { opcode: OP_EXECUTION_MODE_ID, result_type: None, result_id: None, operands: fmd });
        assert(insts_view(modes@) =~= insts_view(before).push(plain_inst(OP_EXECUTION_MODE_ID, fv)));
        let (denorm, capability) = if fast {
            (MODE_DENORM_FLUSH_TO_ZERO, CAP_DENORM_FLUSH_TO_ZERO)
        } else {
            (MODE_DENORM_PRESERVE, CAP_DENORM_PRESERVE)
        };
        let ghost c1 = caps@;
        caps.push(capability);
        caps.push(CAP_ROUNDING_MODE_RTE);
        assert(caps@ =~= c1 + seq![denorm_capability(fast), CAP_ROUNDING_MODE_RTE]);
        push_once(modes, OP_EXECUTION_MODE, mode_operand_vec(entry, denorm, width));
        push_once(modes, OP_EXECUTION_MODE, mode_operand_vec(entry, MODE_ROUNDING_MODE_RTE, width));
        k = k + 1;
    }
    assert(listing@.subrange(0, listing.len() as int) =~= listing@);
}


// ----- finding the entry point of a policy -----

/// `e` names its entry point: it has a name operand holding a string.
pub open spec fn names_entry(e: InstructionView) -> bool {
    e.operands.len() >= 3 && e.operands[2] is LiteralString
}

/// `e` is the entry point of this name and execution model.
pub open spec fn is_policy_entry(e: InstructionView, name: Seq<char>, model: u32) -> bool {
    &&& e.operands[2] == OperandView::LiteralString(name)
    &&& e.operands[0] == OperandView::ExecutionModel(model)
}

/// `i` is the first entry point of this name and model, and every entry
/// point up to it names its entry point.
pub open spec fn first_policy_entry(entries: Seq<InstructionView>, name: Seq<char>, model: u32, i: int) -> bool {
    &&& 0 <= i < entries.len()
    &&& names_entry(entries[i])
    &&& is_policy_entry(entries[i], name, model)
    &&& forall|j: int|
        0 <= j < i ==> names_entry(#[trigger] entries[j]) && !is_policy_entry(entries[j], name, model)
}

/// The entry point of this name and model can be found, and it gives its id
/// as an id reference.
pub open spec fn policy_entry_found(entries: Seq<InstructionView>, name: Seq<char>, model: u32) -> bool {
    exists|i: int|
        first_policy_entry(entries, name, model, i) && (#[trigger] entries[i]).operands[1] is IdRef
}

pub(crate) proof fn lemma_first_policy_entry_unique(entries: Seq<InstructionView>, name: Seq<char>, model: u32, i: int, j: int)
    requires
        first_policy_entry(entries, name, model, i),
        first_policy_entry(entries, name, model, j),
    ensures
        i == j,
{
    let p = |e: InstructionView| names_entry(e) && is_policy_entry(e, name, model);
    assert(is_first(entries, p, i));
    assert(is_first(entries, p, j));
    lemma_first_unique(entries, p, i, j);
}

/// The id of the first entry point of this name and model.
pub open spec fn policy_entry(entries: Seq<InstructionView>, name: Seq<char>, model: u32) -> u32 {
    let i = choose|i: int| first_policy_entry(entries, name, model, i);
    entries[i].operands[1]->IdRef_0
}

/// Finds the id of the first entry point with this name and execution model.
fn find_policy_entry(entries: &Vec<Instruction>, name: &String, model: u32) -> (id: u32)
    requires
        policy_entry_found(insts_view(entries@), name@, model),
    ensures
        id == policy_entry(insts_view(entries@), name@, model),
{
    let ghost ev = insts_view(entries@);
    let ghost found = choose|i: int|
        first_policy_entry(ev, name@, model, i) && (#[trigger] ev[i]).operands[1] is IdRef;
    let mut k: usize = 0;
    while k < entries.len()
        invariant
            ev == insts_view(entries@),
            first_policy_entry(ev, name@, model, found),
            ev[found].operands[1] is IdRef,
            k <= found,
        decreases entries.len() - k,
    {
        let e = &entries[k];
        assert(ev[k as int] == e@);
        assert(names_entry(ev[k as int]));
        let named = match &e.operands[2] {
            Operand::LiteralString(s) => *s == *name,
            _ => false,
        };
        if named {
            let modeled = match &e.operands[0] {
                Operand::ExecutionModel(x) => *x == model,
                _ => false,
            };
            if modeled {
                assert(is_policy_entry(ev[k as int], name@, model));
                assert(k as int == found);
                assert forall|i: int| first_policy_entry(ev, name@, model, i) implies i == found by {
                    lemma_first_policy_entry_unique(ev, name@, model, i, found);
                }
                match &e.operands[1] {
                    Operand::IdRef(x) => {
                        return *x;
                    },
                    _ => {},
                }
            }
        }
        k = k + 1;
    }
    0
}

// ----- the whole restoration -----

/// What restoring builds up: the execution modes and type declarations so
/// far, the next free id, and the capabilities the emitted modes need.
pub struct RestoreState {
    pub modes: Seq<InstructionView>,
    pub types: Seq<InstructionView>,
    pub next: int,
    pub caps: Seq<u32>,
}

/// Restoring one policy `(name, model, flags)`: for an entry point that
/// reaches float types, a 32-bit unsigned integer type and a constant holding
/// the flags are declared, then the modes for each reached width are emitted
/// in increasing width order.
pub open spec fn restore_step(
    st: RestoreState,
    entries: Seq<InstructionView>,
    edges: Map<u32, Seq<u32>>,
    floats: Map<u32, u32>,
    policy: (Seq<char>, u32, u32),
) -> RestoreState {
    let entry = policy_entry(entries, policy.0, policy.1);
    let widths = entry_float_widths(edges, floats, entry);
    if widths.is_empty() {
        st
    } else {
        let (uint, types1, next1) = declare_int(st.types, st.next, 32, 0);
        let flags_id = next1 as u32;
        let (modes, caps) = emit_widths(
            st.modes,
            st.caps,
            entry,
            policy.2 != 0,
            flags_id,
            width_listing(widths),
        );
        RestoreState {
            modes,
            types: types1.push(constant_inst(uint, flags_id, policy.2)),
            next: next1 + 1,
            caps,
        }
    }
}

/// The state after restoring the policies in order, starting from the
/// module's own modes, declarations and id bound.
pub open spec fn restore_states(m: ModuleView, policies: Seq<(Seq<char>, u32, u32)>) -> RestoreState
    decreases policies.len(),
{
    if policies.len() == 0 {
        RestoreState {
            modes: m.execution_modes,
            types: m.types_global_values,
            next: m.bound->Some_0 as int,
            caps: Seq::empty(),
        }
    } else {
        restore_step(
            restore_states(m, policies.drop_last()),
            m.entry_points,
            module_edges(m),
            module_floats(m),
            policies.last(),
        )
    }
}

/// `caps_insts` with a declaration of each capability in `caps` appended,
/// in order, unless already declared.
pub open spec fn declare_capabilities(caps_insts: Seq<InstructionView>, caps: Seq<u32>) -> Seq<
    InstructionView,
>
    decreases caps.len(),
{
    if caps.len() == 0 {
        caps_insts
    } else {
        declare_once(
            declare_capabilities(caps_insts, caps.drop_last()),
            OP_CAPABILITY,
            seq![OperandView::Capability(caps.last())],
        )
    }
}

/// The operands of the float-controls extension declaration.
pub open spec fn float_controls_extension() -> Seq<OperandView> {
    seq![OperandView::LiteralString("SPV_KHR_float_controls"@)]
}

/// The policies with their names as character sequences.
pub open spec fn policies_view(policies: Seq<(String, u32, u32)>) -> Seq<(Seq<char>, u32, u32)> {
    policies.map_values(|p: (String, u32, u32)| (p.0@, p.1, p.2))
}

/// The module after restoring the policies: with no policies, unchanged;
/// otherwise with the emitted modes and declarations, the id bound advanced
/// past the new ids, the float-controls extension declared if any capability
/// is needed and not yet declared, and each needed capability declared once.
pub open spec fn restored(m: ModuleView, policies: Seq<(Seq<char>, u32, u32)>) -> ModuleView {
    if policies.len() == 0 {
        m
    } else {
        let st = restore_states(m, policies);
        ModuleView {
            bound: Some(st.next as u32),
            capabilities: declare_capabilities(m.capabilities, st.caps),
            extensions: if st.caps.len() > 0 {
                declare_once(m.extensions, OP_EXTENSION, float_controls_extension())
            } else {
                m.extensions
            },
            execution_modes: st.modes,
            types_global_values: st.types,
            ..m
        }
    }
}

/// The inputs on which restoring succeeds: with at least one policy, the
/// module has a header, every function a defining instruction with an id,
/// every float type its width as a literal, every policy its entry point,
/// and the new ids fit in 32 bits.
pub open spec fn can_restore(m: ModuleView, policies: Seq<(Seq<char>, u32, u32)>) -> bool {
    policies.len() > 0 ==> {
        &&& m.bound is Some
        &&& functions_identified(m.functions)
        &&& float_widths_given(module_insts(m))
        &&& forall|i: int|
            0 <= i < policies.len() ==> policy_entry_found(
                m.entry_points,
                (#[trigger] policies[i]).0,
                policies[i].1,
            )
        &&& restore_states(m, policies).next <= u32::MAX
    }
}

pub(crate) proof fn lemma_restore_next_grows(m: ModuleView, policies: Seq<(Seq<char>, u32, u32)>, i: int)
    requires
        0 <= i <= policies.len(),
    ensures
        restore_states(m, policies.subrange(0, i)).next <= restore_states(m, policies).next,
    decreases policies.len() - i,
{
    if i < policies.len() {
        lemma_restore_next_grows(m, policies, i + 1);
        assert(policies.subrange(0, i + 1).drop_last() =~= policies.subrange(0, i));
    } else {
        assert(policies.subrange(0, i) =~= policies);
    }
}

/// Emits the final execution modes from the policies saved before the module
/// was rewritten: for each policy, the modes of every float width its entry
/// point reaches, then the extension and capabilities those modes need.
pub fn restore_policies(module: &mut Module, policies: Vec<(String, u32, u32)>)
    requires
        can_restore(old(module)@, policies_view(policies@)),
    ensures
        final(module)@ == restored(old(module)@, policies_view(policies@)),
{
    if policies.len() == 0 {
        return;
    }
    let ghost m0 = module@;
    let ghost pv = policies_view(policies@);
    let (edges, floats) = dependency_graph(module);
    let mut next_id: u32 = match module.bound {
        Some(b) => b,
        None => 0,
    };
    let mut capabilities: Vec<u32> = Vec::new();
    assert(pv.subrange(0, 0) =~= Seq::<(Seq<char>, u32, u32)>::empty());
    let mut i: usize = 0;
    while i < policies.len()
        invariant
            m0 == old(module)@,
            pv == policies_view(policies@),
            can_restore(m0, pv),
            pv.len() > 0,
            i <= policies.len(),
            edges_view(edges@) == module_edges(m0),
            floats@ == module_floats(m0),
            module@ == (ModuleView {
                execution_modes: module@.execution_modes,
                types_global_values: module@.types_global_values,
                ..m0
            }),
            restore_states(m0, pv.subrange(0, i as int)) == (RestoreState {
                modes: module@.execution_modes,
                types: module@.types_global_values,
                next: next_id as int,
                caps: capabilities@,
            }),
        decreases policies.len() - i,
    {
        proof {
            lemma_restore_next_grows(m0, pv, i + 1);
            assert(pv.subrange(0, i + 1).drop_last() =~= pv.subrange(0, i as int));
            assert(pv[i as int] == (policies@[i as int].0@, policies@[i as int].1, policies@[i as int].2));
        }
        let name = &policies[i].0;
        let model = policies[i].1;
        let flags = policies[i].2;
        let entry = find_policy_entry(&module.entry_points, name, model);
        let fast = flags != 0;
        let widths = reachable_widths(&edges, &floats, entry);
        if widths.is_empty() {
            i = i + 1;
            continue;
        }
        let uint = declare_int_type(&mut module.types_global_values, &mut next_id, 32, 0);
        let flags_id = declare_constant_bit32(&mut module.types_global_values, &mut next_id, uint, flags);
        let listing = sorted_widths(&widths);
        emit_modes(&mut module.execution_modes, &mut capabilities, entry, fast, flags_id, &listing);
        i = i + 1;
    }
    assert(pv.subrange(0, pv.len() as int) =~= pv);
    module.bound = Some(next_id);
    if capabilities.len() > 0 {
        let mut ops: Vec<Operand> = Vec::new();
        ops.push(Operand::LiteralString(String::from_str("SPV_KHR_float_controls")));
        assert(operands_view(ops@) =~= float_controls_extension());
        push_once(&mut module.extensions, OP_EXTENSION, ops);
    }
    let ghost caps0 = module@.capabilities;
    let ghost mid = module@;
    assert(mid == (ModuleView {
        bound: Some(next_id),
        capabilities: m0.capabilities,
        extensions: if capabilities@.len() > 0 {
            declare_once(m0.extensions, OP_EXTENSION, float_controls_extension())
        } else {
            m0.extensions
        },
        execution_modes: restore_states(m0, pv).modes,
        types_global_values: restore_states(m0, pv).types,
        ..m0
    }));
    let mut k: usize = 0;
    while k < capabilities.len()
        invariant
            k <= capabilities.len(),
            module@ == (ModuleView { capabilities: module@.capabilities, ..mid }),
            insts_view(module.capabilities@) == declare_capabilities(
                caps0,
                capabilities@.subrange(0, k as int),
            ),
        decreases capabilities.len() - k,
    {
        let mut ops: Vec<Operand> = Vec::new();
        ops.push(Operand::Capability(capabilities[k]));
        assert(operands_view(ops@) =~= seq![OperandView::Capability(capabilities@[k as int])]);
        push_once(&mut module.capabilities, OP_CAPABILITY, ops);
        assert(capabilities@.subrange(0, k + 1).drop_last() =~= capabilities@.subrange(0, k as int));
        k = k + 1;
    }
    assert(capabilities@.subrange(0, capabilities.len() as int) =~= capabilities@);
    assert(module@ =~= restored(m0, pv));
}


// ----- checking the inputs -----

/// The number of policies whose entry point reaches at least one float type.
pub open spec fn reaching_count(m: ModuleView, policies: Seq<(Seq<char>, u32, u32)>) -> nat
    decreases policies.len(),
{
    if policies.len() == 0 {
        0
    } else {
        let p = policies.last();
        reaching_count(m, policies.drop_last()) + if entry_float_widths(
            module_edges(m),
            module_floats(m),
            policy_entry(m.entry_points, p.0, p.1),
        ).is_empty() {
            0nat
        } else {
            1nat
        }
    }
}

/// Some declaration among `types` declares the 32-bit unsigned integer type.
pub open spec fn has_uint32(types: Seq<InstructionView>) -> bool {
    exists|k: int| first_int_decl(types, 32, 0, k)
}

proof fn lemma_uint32_persists(a: Seq<InstructionView>, b: Seq<InstructionView>)
    requires
        is_prefix(a, b),
        has_uint32(a),
    ensures
        has_uint32(b),
{
    let k = choose|k: int| first_int_decl(a, 32, 0, k);
    lemma_prefix_keeps(a, b, k);
    assert forall|j: int| 0 <= j < k implies !declares_int(#[trigger] b[j], 32, 0) by {
        lemma_prefix_keeps(a, b, j);
    }
    assert(first_int_decl(b, 32, 0, k));
}

/// Restoring takes one new id per policy whose entry point reaches a float
/// type, plus one for the 32-bit unsigned integer type if the module lacks it
/// and some policy needs it.
pub proof fn lemma_restore_next_exact(m: ModuleView, policies: Seq<(Seq<char>, u32, u32)>)
    ensures
        ({
            let st = restore_states(m, policies);
            let n = reaching_count(m, policies);
            &&& st.next == m.bound->Some_0 + n + if n > 0 && !has_uint32(m.types_global_values) {
                1int
            } else {
                0int
            }
            &&& n == 0 ==> st.types == m.types_global_values
            &&& n > 0 ==> has_uint32(st.types)
        }),
    decreases policies.len(),
{
    if policies.len() > 0 {
        let rest = policies.drop_last();
        lemma_restore_next_exact(m, rest);
        let st0 = restore_states(m, rest);
        let p = policies.last();
        let entry = policy_entry(m.entry_points, p.0, p.1);
        let widths = entry_float_widths(module_edges(m), module_floats(m), entry);
        if !widths.is_empty() {
            let (uint, types1, next1) = declare_int(st0.types, st0.next, 32, 0);
            let types2 = types1.push(constant_inst(uint, next1 as u32, p.2));
            lemma_prefix_push(types1, constant_inst(uint, next1 as u32, p.2));
            if has_uint32(st0.types) {
                lemma_uint32_persists(types1, types2);
            } else {
                let t = types1.last();
                assert(declares_int(types1[st0.types.len() as int], 32, 0));
                assert forall|j: int| 0 <= j < st0.types.len() implies !declares_int(#[trigger] types1[j], 32, 0) by {
                    assert(types1[j] == st0.types[j]);
                    if declares_int(st0.types[j], 32, 0) {
                        lemma_first_exists(st0.types, j);
                    }
                }
                assert(first_int_decl(types1, 32, 0, st0.types.len() as int));
                lemma_uint32_persists(types1, types2);
            }
        }
    }
}

proof fn lemma_first_exists(types: Seq<InstructionView>, j: int)
    requires
        0 <= j < types.len(),
        declares_int(types[j], 32, 0),
    ensures
        has_uint32(types),
    decreases j,
{
    if exists|i: int| 0 <= i < j && declares_int(#[trigger] types[i], 32, 0) {
        let i = choose|i: int| 0 <= i < j && declares_int(#[trigger] types[i], 32, 0);
        lemma_first_exists(types, i);
    } else {
        assert(first_int_decl(types, 32, 0, j));
    }
}

/// Whether the 32-bit unsigned integer type is declared among `types`.
fn declares_uint32(types: &Vec<Instruction>) -> (r: bool)
    ensures
        r == has_uint32(insts_view(types@)),
{
    let ghost tv = insts_view(types@);
    let mut k: usize = 0;
    while k < types.len()
        invariant
            tv == insts_view(types@),
            k <= types.len(),
            forall|j: int| 0 <= j < k ==> !declares_int(#[trigger] tv[j], 32, 0),
        decreases types.len() - k,
    {
        let t = &types[k];
        assert(tv[k as int] == t@);
        if t.opcode == OP_TYPE_INT && t.operands.len() == 2 && t.result_id.is_some() {
            let same = match (&t.operands[0], &t.operands[1]) {
                (Operand::LiteralBit32(a), Operand::LiteralBit32(b)) => *a == 32 && *b == 0,
                _ => false,
            };
            assert(same == (t@.operands =~= int_type_operands(32, 0)));
            if same {
                assert(first_int_decl(tv, 32, 0, k as int));
                return true;
            }
        }
        assert(t@.operands.len() == t.operands.len());
        assert(!declares_int(tv[k as int], 32, 0));
        k = k + 1;
    }
    false
}

/// Whether the entry point of this name and model can be found.
fn policy_entry_findable(entries: &Vec<Instruction>, name: &String, model: u32) -> (r: bool)
    ensures
        r == policy_entry_found(insts_view(entries@), name@, model),
{
    let ghost ev = insts_view(entries@);
    let mut k: usize = 0;
    while k < entries.len()
        invariant
            ev == insts_view(entries@),
            k <= entries.len(),
            forall|j: int|
                0 <= j < k ==> names_entry(#[trigger] ev[j]) && !is_policy_entry(ev[j], name@, model),
        decreases entries.len() - k,
    {
        let e = &entries[k];
        assert(ev[k as int] == e@);
        if e.operands.len() < 3 {
            assert forall|i: int| !first_policy_entry(ev, name@, model, i) by {
                if first_policy_entry(ev, name@, model, i) && i > k {
                    assert(names_entry(ev[k as int]));
                }
            }
            return false;
        }
        assert(e@.operands[2] == e.operands@[2]@);
        assert(e@.operands[1] == e.operands@[1]@);
        assert(e@.operands[0] == e.operands@[0]@);
        let named = match &e.operands[2] {
            Operand::LiteralString(_) => true,
            _ => false,
        };
        if !named {
            assert forall|i: int| !first_policy_entry(ev, name@, model, i) by {
                if first_policy_entry(ev, name@, model, i) && i > k {
                    assert(names_entry(ev[k as int]));
                }
            }
            return false;
        }
        let same_name = match &e.operands[2] {
            Operand::LiteralString(s) => *s == *name,
            _ => false,
        };
        let same_model = match &e.operands[0] {
            Operand::ExecutionModel(x) => *x == model,
            _ => false,
        };
        if same_name && same_model {
            assert(first_policy_entry(ev, name@, model, k as int));
            assert forall|i: int| first_policy_entry(ev, name@, model, i) implies i == k by {
                lemma_first_policy_entry_unique(ev, name@, model, i, k as int);
            }
            return match &e.operands[1] {
                Operand::IdRef(_) => true,
                _ => false,
            };
        }
        k = k + 1;
    }
    false
}

proof fn lemma_widths_given_join(a: Seq<InstructionView>, b: Seq<InstructionView>)
    requires
        float_widths_given(a),
        float_widths_given(b),
    ensures
        float_widths_given(a + b),
{
    assert forall|k: int|
        0 <= k < (a + b).len() && (#[trigger] (a + b)[k]).result_id is Some && (a + b)[k].opcode
            == OP_TYPE_FLOAT implies (a + b)[k].operands.len() >= 1 && (a + b)[k].operands[0] is LiteralBit32 by {
        if k < a.len() {
            assert((a + b)[k] == a[k]);
        } else {
            assert((a + b)[k] == b[k - a.len()]);
        }
    }
}

/// Whether every float type declaration among `insts` gives its width as a
/// 32-bit literal.
fn widths_given_check(insts: &Vec<Instruction>) -> (r: bool)
    ensures
        r == float_widths_given(insts_view(insts@)),
{
    let ghost iv = insts_view(insts@);
    let mut k: usize = 0;
    while k < insts.len()
        invariant
            iv == insts_view(insts@),
            k <= insts.len(),
            forall|j: int|
                0 <= j < k && (#[trigger] iv[j]).result_id is Some && iv[j].opcode == OP_TYPE_FLOAT
                    ==> iv[j].operands.len() >= 1 && iv[j].operands[0] is LiteralBit32,
        decreases insts.len() - k,
    {
        let inst = &insts[k];
        assert(iv[k as int] == inst@);
        if inst.result_id.is_some() && inst.opcode == OP_TYPE_FLOAT {
            if inst.operands.len() < 1 {
                return false;
            }
            assert(inst@.operands[0] == inst.operands@[0]@);
            let ok = match &inst.operands[0] {
                Operand::LiteralBit32(_) => true,
                _ => false,
            };
            if !ok {
                return false;
            }
        }
        k = k + 1;
    }
    true
}

/// Whether one instruction, taken as a sequence, gives its width if it is a
/// float type.
fn width_given_check(inst: &Instruction) -> (r: bool)
    ensures
        r == float_widths_given(seq![inst@]),
{
    assert(seq![inst@][0] == inst@);
    if inst.result_id.is_some() && inst.opcode == OP_TYPE_FLOAT {
        if inst.operands.len() < 1 {
            return false;
        }
        assert(inst@.operands[0] == inst.operands@[0]@);
        match &inst.operands[0] {
            Operand::LiteralBit32(_) => true,
            _ => false,
        }
    } else {
        true
    }
}

/// Whether every float type declaration of the module gives its width as a
/// 32-bit literal.
fn module_widths_given(m: &Module) -> (r: bool)
    ensures
        r == float_widths_given(module_insts(m@)),
{
    let ghost mv = m@;
    let g = widths_given_check(&m.capabilities) && widths_given_check(&m.extensions)
        && widths_given_check(&m.ext_inst_imports) && match &m.memory_model {
        Some(i) => width_given_check(i),
        None => true,
    } && widths_given_check(&m.entry_points) && widths_given_check(&m.execution_modes)
        && widths_given_check(&m.debug) && widths_given_check(&m.annotations)
        && widths_given_check(&m.types_global_values);
    proof {
        if let Some(i) = &m.memory_model {
            assert(mv.memory_model == seq![i@]);
        } else {
            assert(mv.memory_model =~= Seq::<InstructionView>::empty());
        }
        let s1 = mv.capabilities;
        let s2 = s1 + mv.extensions;
        let s3 = s2 + mv.ext_inst_imports;
        let s4 = s3 + mv.memory_model;
        let s5 = s4 + mv.entry_points;
        let s6 = s5 + mv.execution_modes;
        let s7 = s6 + mv.debug;
        let s8 = s7 + mv.annotations;
        let s9 = s8 + mv.types_global_values;
        if g {
            lemma_widths_given_join(s1, mv.extensions);
            lemma_widths_given_join(s2, mv.ext_inst_imports);
            lemma_widths_given_join(s3, mv.memory_model);
            lemma_widths_given_join(s4, mv.entry_points);
            lemma_widths_given_join(s5, mv.execution_modes);
            lemma_widths_given_join(s6, mv.debug);
            lemma_widths_given_join(s7, mv.annotations);
            lemma_widths_given_join(s8, mv.types_global_values);
        } else {
            if float_widths_given(s9) {
                lemma_widths_given_split(s8, mv.types_global_values);
                lemma_widths_given_split(s7, mv.annotations);
                lemma_widths_given_split(s6, mv.debug);
                lemma_widths_given_split(s5, mv.execution_modes);
                lemma_widths_given_split(s4, mv.entry_points);
                lemma_widths_given_split(s3, mv.memory_model);
                lemma_widths_given_split(s2, mv.ext_inst_imports);
                lemma_widths_given_split(s1, mv.extensions);
            }
        }
        assert(s9 == global_insts(mv));
    }
    if !g {
        proof {
            if float_widths_given(module_insts(mv)) {
                lemma_widths_given_split(
                    global_insts(mv),
                    functions_insts(mv.functions),
                );
            }
        }
        return false;
    }
    let mut k: usize = 0;
    assert(mv.functions.subrange(0, 0) =~= Seq::<FunctionView>::empty());
    while k < m.functions.len()
        invariant
            mv == m@,
            k <= m.functions.len(),
            float_widths_given(global_insts(mv)),
            float_widths_given(
                global_insts(mv) + functions_insts(
                    mv.functions.subrange(0, k as int),
                ),
            ),
        decreases m.functions.len() - k,
    {
        let f = &m.functions[k];
        let ghost fv = mv.functions[k as int];
        assert(fv == f@);
        let ok = match &f.def {
            Some(d) => width_given_check(d),
            None => true,
        } && widths_given_check(&f.body);
        let ghost before = global_insts(mv) + functions_insts(
            mv.functions.subrange(0, k as int),
        );
        proof {
            assert(mv.functions.subrange(0, k + 1).drop_last() =~= mv.functions.subrange(0, k as int));
            assert(before + fv.all_insts() =~= global_insts(mv)
                + functions_insts(mv.functions.subrange(0, k + 1)));
            match &f.def {
                Some(d) => {
                    assert(fv.all_insts() == seq![d@] + fv.body);
                },
                None => {
                    assert(fv.all_insts() == fv.body);
                },
            }
        }
        if !ok {
            proof {
                lemma_functions_split(mv.functions, k as int);
                if float_widths_given(module_insts(mv)) {
                    lemma_widths_given_split(
                        global_insts(mv),
                        functions_insts(mv.functions),
                    );
                    lemma_widths_given_split(
                        functions_insts(mv.functions.subrange(0, k + 1)),
                        functions_insts(mv.functions.subrange(k + 1, mv.functions.len() as int)),
                    );
                    lemma_widths_given_split(
                        functions_insts(mv.functions.subrange(0, k as int)),
                        fv.all_insts(),
                    );
                    if let Some(d) = &f.def {
                        lemma_widths_given_split(seq![d@], fv.body);
                    }
                }
            }
            return false;
        }
        proof {
            if let Some(d) = &f.def {
                lemma_widths_given_join(seq![d@], fv.body);
            }
            lemma_widths_given_join(before, fv.all_insts());
        }
        k = k + 1;
    }
    assert(mv.functions.subrange(0, m.functions.len() as int) =~= mv.functions);
    true
}

proof fn lemma_functions_split(fns: Seq<FunctionView>, k: int)
    requires
        0 <= k < fns.len(),
    ensures
        functions_insts(fns) == functions_insts(fns.subrange(0, k + 1))
            + functions_insts(fns.subrange(k + 1, fns.len() as int)),
        functions_insts(fns.subrange(0, k + 1)) == functions_insts(
            fns.subrange(0, k),
        ) + fns[k].all_insts(),
    decreases fns.len(),
{
    assert(fns.subrange(0, k + 1).drop_last() =~= fns.subrange(0, k));
    if fns.len() == k + 1 {
        assert(fns.subrange(0, k + 1) =~= fns);
        assert(fns.subrange(k + 1, fns.len() as int) =~= Seq::<FunctionView>::empty());
        assert(functions_insts(fns.subrange(0, k + 1)) + Seq::empty() =~= functions_insts(fns));
    } else {
        lemma_functions_split(fns.drop_last(), k);
        let d = fns.drop_last();
        assert(d.subrange(0, k + 1) =~= fns.subrange(0, k + 1));
        assert(d.subrange(k + 1, d.len() as int) =~= fns.subrange(k + 1, fns.len() - 1));
        assert(fns.subrange(k + 1, fns.len() as int).drop_last() =~= fns.subrange(k + 1, fns.len() - 1));
        assert(fns.subrange(k + 1, fns.len() as int).last() == fns.last());
        assert(functions_insts(fns) =~= functions_insts(fns.subrange(0, k + 1))
            + functions_insts(fns.subrange(k + 1, fns.len() as int)));
    }
}

/// Whether every function has a defining instruction with a result id.
fn functions_identified_check(m: &Module) -> (r: bool)
    ensures
        r == functions_identified(m@.functions),
{
    let ghost mv = m@;
    let mut k: usize = 0;
    while k < m.functions.len()
        invariant
            mv == m@,
            k <= m.functions.len(),
            forall|j: int|
                0 <= j < k ==> (#[trigger] mv.functions[j]).def is Some && mv.functions[j].def->Some_0.result_id is Some,
        decreases m.functions.len() - k,
    {
        assert(mv.functions[k as int] == m.functions@[k as int]@);
        let ok = match &m.functions[k].def {
            Some(d) => d.result_id.is_some(),
            None => false,
        };
        if !ok {
            return false;
        }
        k = k + 1;
    }
    true
}

/// Whether [`restore_policies`] may be called with these inputs.
pub fn can_restore_policies(m: &Module, policies: &Vec<(String, u32, u32)>) -> (r: bool)
    ensures
        r == can_restore(m@, policies_view(policies@)),
{
    let ghost pv = policies_view(policies@);
    let ghost mv = m@;
    if policies.len() == 0 {
        return true;
    }
    let bound = match m.bound {
        Some(b) => b,
        None => {
            return false;
        },
    };
    if !functions_identified_check(m) || !module_widths_given(m) {
        return false;
    }
    let (edges, floats) = dependency_graph(m);
    let mut reaching: u64 = 0;
    let mut i: usize = 0;
    assert(pv.subrange(0, 0) =~= Seq::<(Seq<char>, u32, u32)>::empty());
    while i < policies.len()
        invariant
            mv == m@,
            pv == policies_view(policies@),
            i <= policies.len(),
            edges_view(edges@) == module_edges(mv),
            floats@ == module_floats(mv),
            reaching as int == reaching_count(mv, pv.subrange(0, i as int)),
            reaching <= i,
            forall|j: int|
                0 <= j < i ==> policy_entry_found(mv.entry_points, (#[trigger] pv[j]).0, pv[j].1),
        decreases policies.len() - i,
    {
        assert(pv[i as int] == (policies@[i as int].0@, policies@[i as int].1, policies@[i as int].2));
        assert(pv.subrange(0, i + 1).drop_last() =~= pv.subrange(0, i as int));
        if !policy_entry_findable(&m.entry_points, &policies[i].0, policies[i].1) {
            return false;
        }
        let entry = find_policy_entry(&m.entry_points, &policies[i].0, policies[i].1);
        let widths = reachable_widths(&edges, &floats, entry);
        if !widths.is_empty() {
            reaching = reaching + 1;
        }
        i = i + 1;
    }
    assert(pv.subrange(0, pv.len() as int) =~= pv);
    let extra: u64 = if reaching > 0 && !declares_uint32(&m.types_global_values) {
        1
    } else {
        0
    };
    proof {
        lemma_restore_next_exact(mv, pv);
    }
    let room = (u32::MAX - bound) as u64;
    reaching <= room && extra <= room - reaching
}

// ----- laws -----

/// `a` is a prefix of `b`.
pub open spec fn is_prefix<T>(a: Seq<T>, b: Seq<T>) -> bool {
    a.len() <= b.len() && b.subrange(0, a.len() as int) == a
}

pub(crate) proof fn lemma_prefix_trans<T>(a: Seq<T>, b: Seq<T>, c: Seq<T>)
    requires
        is_prefix(a, b),
        is_prefix(b, c),
    ensures
        is_prefix(a, c),
{
    assert(c.subrange(0, a.len() as int) =~= b.subrange(0, a.len() as int));
}

pub(crate) proof fn lemma_prefix_push<T>(a: Seq<T>, x: T)
    ensures
        is_prefix(a, a.push(x)),
        is_prefix(a, a),
{
    assert(a.push(x).subrange(0, a.len() as int) =~= a);
    assert(a.subrange(0, a.len() as int) =~= a);
}

pub(crate) proof fn lemma_prefix_keeps<T>(a: Seq<T>, b: Seq<T>, k: int)
    requires
        is_prefix(a, b),
        0 <= k < a.len(),
    ensures
        b[k] == a[k],
{
    assert(b.subrange(0, a.len() as int)[k] == b[k]);
}

pub(crate) proof fn lemma_declare_once(insts: Seq<InstructionView>, opcode: u32, ops: Seq<OperandView>)
    ensures
        is_prefix(insts, declare_once(insts, opcode, ops)),
        declares_operands(declare_once(insts, opcode, ops), ops),
{
    lemma_prefix_push(insts, plain_inst(opcode, ops));
    if !declares_operands(insts, ops) {
        let r = insts.push(plain_inst(opcode, ops));
        assert(r[insts.len() as int].operands == ops);
    }
}

proof fn lemma_declares_prefix(a: Seq<InstructionView>, b: Seq<InstructionView>, ops: Seq<OperandView>)
    requires
        is_prefix(a, b),
        declares_operands(a, ops),
    ensures
        declares_operands(b, ops),
{
    let i = choose|i: int| 0 <= i < a.len() && (#[trigger] a[i]).operands == ops;
    lemma_prefix_keeps(a, b, i);
}

/// The modes emitted for one width set its fast-math default and declare its
/// denormal and rounding modes, after everything already there.
pub(crate) proof fn lemma_emit_width(
    modes: Seq<InstructionView>,
    caps: Seq<u32>,
    entry: u32,
    fast: bool,
    flags_id: u32,
    width: u32,
    ty: u32,
)
    ensures
        ({
            let (m, c) = emit_width(modes, caps, entry, fast, flags_id, width, ty);
            &&& is_prefix(modes, m)
            &&& is_prefix(caps, c)
            &&& m[modes.len() as int] == plain_inst(
                OP_EXECUTION_MODE_ID,
                fast_math_default_operands(entry, ty, flags_id),
            )
            &&& declares_operands(m, mode_operands(entry, denorm_mode(fast), width))
            &&& declares_operands(m, mode_operands(entry, MODE_ROUNDING_MODE_RTE, width))
        }),
{
    let m1 = modes.push(
        plain_inst(OP_EXECUTION_MODE_ID, fast_math_default_operands(entry, ty, flags_id)),
    );
    let m2 = declare_once(m1, OP_EXECUTION_MODE, mode_operands(entry, denorm_mode(fast), width));
    let m3 = declare_once(m2, OP_EXECUTION_MODE, mode_operands(entry, MODE_ROUNDING_MODE_RTE, width));
    lemma_prefix_push(modes, m1.last());
    lemma_declare_once(m1, OP_EXECUTION_MODE, mode_operands(entry, denorm_mode(fast), width));
    lemma_declare_once(m2, OP_EXECUTION_MODE, mode_operands(entry, MODE_ROUNDING_MODE_RTE, width));
    lemma_prefix_trans(modes, m1, m2);
    lemma_prefix_trans(modes, m2, m3);
    lemma_prefix_trans(m1, m2, m3);
    lemma_prefix_keeps(m1, m3, modes.len() as int);
    lemma_declares_prefix(m2, m3, mode_operands(entry, denorm_mode(fast), width));
    assert(is_prefix(caps, caps + seq![denorm_capability(fast), CAP_ROUNDING_MODE_RTE])) by {
        assert((caps + seq![denorm_capability(fast), CAP_ROUNDING_MODE_RTE]).subrange(
            0,
            caps.len() as int,
        ) =~= caps);
    }
}

/// `entry` reaches a float type of width `width`.
pub open spec fn reaches_width(
    edges: Map<u32, Seq<u32>>,
    floats: Map<u32, u32>,
    entry: u32,
    width: u32,
) -> bool {
    exists|v: u32| reaches(edges, entry, v) && #[trigger] floats.contains_key(v) && floats[v] == width
}

/// `inst` sets the fast-math default of `entry` for a float type of width
/// `width` that `entry` reaches.
pub open spec fn sets_width_default(
    inst: InstructionView,
    edges: Map<u32, Seq<u32>>,
    floats: Map<u32, u32>,
    entry: u32,
    width: u32,
) -> bool {
    &&& inst.opcode == OP_EXECUTION_MODE_ID
    &&& inst.operands.len() == 4
    &&& inst.operands[0] == OperandView::IdRef(entry)
    &&& inst.operands[1] == OperandView::ExecutionMode(MODE_FP_FAST_MATH_DEFAULT)
    &&& inst.operands[2] is IdRef
    &&& floats.contains_key(inst.operands[2]->IdRef_0)
    &&& floats[inst.operands[2]->IdRef_0] == width
    &&& reaches(edges, entry, inst.operands[2]->IdRef_0)
}

/// The modes of `entry` for `width` are all in `modes`: a fast-math default
/// for a reached float type of that width, and its denormal and rounding
/// modes.
pub open spec fn width_covered(
    modes: Seq<InstructionView>,
    edges: Map<u32, Seq<u32>>,
    floats: Map<u32, u32>,
    entry: u32,
    fast: bool,
    width: u32,
) -> bool {
    &&& exists|k: int|
        0 <= k < modes.len() && sets_width_default(#[trigger] modes[k], edges, floats, entry, width)
    &&& declares_operands(modes, mode_operands(entry, denorm_mode(fast), width))
    &&& declares_operands(modes, mode_operands(entry, MODE_ROUNDING_MODE_RTE, width))
}

proof fn lemma_covered_prefix(
    a: Seq<InstructionView>,
    b: Seq<InstructionView>,
    edges: Map<u32, Seq<u32>>,
    floats: Map<u32, u32>,
    entry: u32,
    fast: bool,
    width: u32,
)
    requires
        is_prefix(a, b),
        width_covered(a, edges, floats, entry, fast, width),
    ensures
        width_covered(b, edges, floats, entry, fast, width),
{
    let k = choose|k: int|
        0 <= k < a.len() && sets_width_default(#[trigger] a[k], edges, floats, entry, width);
    lemma_prefix_keeps(a, b, k);
    lemma_declares_prefix(a, b, mode_operands(entry, denorm_mode(fast), width));
    lemma_declares_prefix(a, b, mode_operands(entry, MODE_ROUNDING_MODE_RTE, width));
}

proof fn lemma_emit_widths(
    modes: Seq<InstructionView>,
    caps: Seq<u32>,
    edges: Map<u32, Seq<u32>>,
    floats: Map<u32, u32>,
    entry: u32,
    fast: bool,
    flags_id: u32,
    listing: Seq<(u32, u32)>,
)
    requires
        forall|i: int|
            0 <= i < listing.len() ==> floats.contains_key(#[trigger] listing[i].1) && floats[listing[i].1]
                == listing[i].0 && reaches(edges, entry, listing[i].1),
    ensures
        ({
            let (m, c) = emit_widths(modes, caps, entry, fast, flags_id, listing);
            &&& is_prefix(modes, m)
            &&& is_prefix(caps, c)
            &&& forall|i: int|
                0 <= i < listing.len() ==> width_covered(m, edges, floats, entry, fast, #[trigger] listing[i].0)
        }),
    decreases listing.len(),
{
    if listing.len() == 0 {
        lemma_prefix_push(modes, modes[0]);
        lemma_prefix_push(caps, 0);
    } else {
        let l = listing.drop_last();
        assert forall|i: int| 0 <= i < l.len() implies floats.contains_key(#[trigger] l[i].1)
            && floats[l[i].1] == l[i].0 && reaches(edges, entry, l[i].1) by {
            assert(l[i] == listing[i]);
        }
        lemma_emit_widths(modes, caps, edges, floats, entry, fast, flags_id, l);
        let (m0, c0) = emit_widths(modes, caps, entry, fast, flags_id, l);
        let (w, ty) = listing.last();
        lemma_emit_width(m0, c0, entry, fast, flags_id, w, ty);
        let (m1, c1) = emit_width(m0, c0, entry, fast, flags_id, w, ty);
        lemma_prefix_trans(modes, m0, m1);
        lemma_prefix_trans(caps, c0, c1);
        assert(listing[listing.len() - 1] == listing.last());
        assert(sets_width_default(m1[m0.len() as int], edges, floats, entry, w));
        assert forall|i: int| 0 <= i < listing.len() implies width_covered(
            m1,
            edges,
            floats,
            entry,
            fast,
            #[trigger] listing[i].0,
        ) by {
            if i < l.len() {
                assert(l[i] == listing[i]);
                lemma_covered_prefix(m0, m1, edges, floats, entry, fast, listing[i].0);
            }
        }
    }
}

proof fn lemma_emit_widths_caps(
    modes: Seq<InstructionView>,
    caps: Seq<u32>,
    entry: u32,
    fast: bool,
    flags_id: u32,
    listing: Seq<(u32, u32)>,
)
    requires
        listing.len() > 0,
    ensures
        emit_widths(modes, caps, entry, fast, flags_id, listing).1.contains(denorm_capability(fast)),
        emit_widths(modes, caps, entry, fast, flags_id, listing).1.contains(CAP_ROUNDING_MODE_RTE),
{
    let (m0, c0) = emit_widths(modes, caps, entry, fast, flags_id, listing.drop_last());
    let c1 = c0 + seq![denorm_capability(fast), CAP_ROUNDING_MODE_RTE];
    assert(c1[c0.len() as int] == denorm_capability(fast));
    assert(c1[c0.len() as int + 1] == CAP_ROUNDING_MODE_RTE);
}

pub(crate) proof fn lemma_restore_step(
    st: RestoreState,
    entries: Seq<InstructionView>,
    edges: Map<u32, Seq<u32>>,
    floats: Map<u32, u32>,
    policy: (Seq<char>, u32, u32),
)
    ensures
        ({
            let st2 = restore_step(st, entries, edges, floats, policy);
            let entry = policy_entry(entries, policy.0, policy.1);
            &&& is_prefix(st.modes, st2.modes)
            &&& is_prefix(st.types, st2.types)
            &&& is_prefix(st.caps, st2.caps)
            &&& forall|w: u32| #[trigger]
                reaches_width(edges, floats, entry, w) ==> width_covered(
                    st2.modes,
                    edges,
                    floats,
                    entry,
                    policy.2 != 0,
                    w,
                ) && st2.caps.contains(denorm_capability(policy.2 != 0)) && st2.caps.contains(
                    CAP_ROUNDING_MODE_RTE,
                )
        }),
{
    let entry = policy_entry(entries, policy.0, policy.1);
    let widths = entry_float_widths(edges, floats, entry);
    lemma_entry_float_widths(edges, floats, entry);
    lemma_prefix_push(st.modes, st.modes[0]);
    lemma_prefix_push(st.types, st.types[0]);
    lemma_prefix_push(st.caps, 0);
    if !widths.is_empty() {
        let (uint, types1, next1) = declare_int(st.types, st.next, 32, 0);
        lemma_prefix_push(st.types, constant_inst(0, 0, 0));
        if !(exists|k: int| first_int_decl(st.types, 32, 0, k)) {
            lemma_prefix_push(st.types, types1.last());
        }
        lemma_prefix_push(types1, constant_inst(uint, next1 as u32, policy.2));
        lemma_prefix_trans(st.types, types1, types1.push(constant_inst(uint, next1 as u32, policy.2)));
        let listing = width_listing(widths);
        assert(is_width_listing(widths, listing)) by {
            lemma_entry_float_widths_finite(edges, floats, entry);
            lemma_width_listing_exists(widths);
        }
        assert forall|i: int| 0 <= i < listing.len() implies floats.contains_key(#[trigger] listing[i].1)
            && floats[listing[i].1] == listing[i].0 && reaches(edges, entry, listing[i].1) by {
            assert(widths.contains_key(listing[i].0));
        }
        lemma_emit_widths(st.modes, st.caps, edges, floats, entry, policy.2 != 0, next1 as u32, listing);
        let (modes, caps) = emit_widths(st.modes, st.caps, entry, policy.2 != 0, next1 as u32, listing);
        assert forall|w: u32| #[trigger]
            reaches_width(edges, floats, entry, w) implies width_covered(
            modes,
            edges,
            floats,
            entry,
            policy.2 != 0,
            w,
        ) by {
            assert(widths.contains_key(w));
            let i = choose|i: int| 0 <= i < listing.len() && listing[i].0 == w;
            assert(width_covered(modes, edges, floats, entry, policy.2 != 0, listing[i].0));
        }
        if listing.len() > 0 {
            lemma_emit_widths_caps(st.modes, st.caps, entry, policy.2 != 0, next1 as u32, listing);
        }
        assert forall|w: u32| #[trigger] reaches_width(edges, floats, entry, w) implies listing.len() > 0 by {
            assert(widths.contains_key(w));
            let i = choose|i: int| 0 <= i < listing.len() && listing[i].0 == w;
        }
        let st2 = restore_step(st, entries, edges, floats, policy);
        assert(st2.modes == modes && st2.caps == caps);
    } else {
        assert forall|w: u32| !#[trigger] reaches_width(edges, floats, entry, w) by {
            if reaches_width(edges, floats, entry, w) {
                assert(widths.contains_key(w));
                assert(widths.dom().contains(w));
            }
        }
    }
}


proof fn lemma_restore_states(m: ModuleView, policies: Seq<(Seq<char>, u32, u32)>)
    ensures
        ({
            let st = restore_states(m, policies);
            let edges = module_edges(m);
            let floats = module_floats(m);
            &&& is_prefix(m.execution_modes, st.modes)
            &&& is_prefix(m.types_global_values, st.types)
            &&& forall|i: int, w: u32|
                0 <= i < policies.len() && #[trigger] reaches_width(
                    edges,
                    floats,
                    policy_entry(m.entry_points, policies[i].0, policies[i].1),
                    w,
                ) ==> width_covered(
                    st.modes,
                    edges,
                    floats,
                    policy_entry(m.entry_points, policies[i].0, policies[i].1),
                    policies[i].2 != 0,
                    w,
                ) && st.caps.contains(denorm_capability(policies[i].2 != 0)) && st.caps.contains(
                    CAP_ROUNDING_MODE_RTE,
                )
        }),
    decreases policies.len(),
{
    let edges = module_edges(m);
    let floats = module_floats(m);
    if policies.len() == 0 {
        lemma_prefix_push(m.execution_modes, m.execution_modes[0]);
        lemma_prefix_push(m.types_global_values, m.types_global_values[0]);
    } else {
        let rest = policies.drop_last();
        lemma_restore_states(m, rest);
        let st0 = restore_states(m, rest);
        let st = restore_states(m, policies);
        lemma_restore_step(st0, m.entry_points, edges, floats, policies.last());
        lemma_prefix_trans(m.execution_modes, st0.modes, st.modes);
        lemma_prefix_trans(m.types_global_values, st0.types, st.types);
        assert forall|i: int, w: u32|
            0 <= i < policies.len() && #[trigger] reaches_width(
                edges,
                floats,
                policy_entry(m.entry_points, policies[i].0, policies[i].1),
                w,
            ) implies width_covered(
                st.modes,
                edges,
                floats,
                policy_entry(m.entry_points, policies[i].0, policies[i].1),
                policies[i].2 != 0,
                w,
            ) && st.caps.contains(denorm_capability(policies[i].2 != 0)) && st.caps.contains(
                CAP_ROUNDING_MODE_RTE,
            ) by {
            if i < rest.len() {
                assert(rest[i] == policies[i]);
                let e = policy_entry(m.entry_points, policies[i].0, policies[i].1);
                lemma_covered_prefix(st0.modes, st.modes, edges, floats, e, policies[i].2 != 0, w);
                lemma_contains_prefix(st0.caps, st.caps, denorm_capability(policies[i].2 != 0));
                lemma_contains_prefix(st0.caps, st.caps, CAP_ROUNDING_MODE_RTE);
            } else {
                assert(policies[i] == policies.last());
            }
        }
    }
}

proof fn lemma_contains_prefix<T>(a: Seq<T>, b: Seq<T>, x: T)
    requires
        is_prefix(a, b),
        a.contains(x),
    ensures
        b.contains(x),
{
    let i = choose|i: int| 0 <= i < a.len() && a[i] == x;
    lemma_prefix_keeps(a, b, i);
}

proof fn lemma_declare_capabilities(insts: Seq<InstructionView>, caps: Seq<u32>)
    ensures
        is_prefix(insts, declare_capabilities(insts, caps)),
        forall|c: u32|
            #[trigger] caps.contains(c) ==> declares_operands(
                declare_capabilities(insts, caps),
                seq![OperandView::Capability(c)],
            ),
    decreases caps.len(),
{
    if caps.len() == 0 {
        lemma_prefix_push(insts, insts[0]);
    } else {
        let rest = caps.drop_last();
        lemma_declare_capabilities(insts, rest);
        let d0 = declare_capabilities(insts, rest);
        let d1 = declare_capabilities(insts, caps);
        lemma_declare_once(d0, OP_CAPABILITY, seq![OperandView::Capability(caps.last())]);
        lemma_prefix_trans(insts, d0, d1);
        assert forall|c: u32| #[trigger] caps.contains(c) implies declares_operands(
            d1,
            seq![OperandView::Capability(c)],
        ) by {
            let j = choose|j: int| 0 <= j < caps.len() && caps[j] == c;
            if j < rest.len() {
                assert(rest[j] == c);
                assert(rest.contains(c));
                lemma_declares_prefix(d0, d1, seq![OperandView::Capability(c)]);
            }
        }
    }
}

/// For every policy and every float width its entry point reaches, the
/// restored module sets a fast-math default for a reached float type of that
/// width, declares the policy's denormal mode and round-to-nearest-even for
/// that width, and declares the capabilities and the extension those modes
/// need.
pub proof fn lemma_restore_covers_reached_widths(m: ModuleView, policies: Seq<(Seq<char>, u32, u32)>)
    ensures
        forall|i: int, w: u32|
            0 <= i < policies.len() && #[trigger] reaches_width(
                module_edges(m),
                module_floats(m),
                policy_entry(m.entry_points, policies[i].0, policies[i].1),
                w,
            ) ==> {
                let r = restored(m, policies);
                let fast = policies[i].2 != 0;
                &&& width_covered(
                    r.execution_modes,
                    module_edges(m),
                    module_floats(m),
                    policy_entry(m.entry_points, policies[i].0, policies[i].1),
                    fast,
                    w,
                )
                &&& declares_operands(r.capabilities, seq![OperandView::Capability(denorm_capability(fast))])
                &&& declares_operands(r.capabilities, seq![OperandView::Capability(CAP_ROUNDING_MODE_RTE)])
                &&& declares_operands(r.extensions, float_controls_extension())
            },
{
    lemma_restore_states(m, policies);
    let st = restore_states(m, policies);
    lemma_declare_capabilities(m.capabilities, st.caps);
    lemma_declare_once(m.extensions, OP_EXTENSION, float_controls_extension());
}

/// Restoring only appends: every section of the module is a prefix of the
/// restored section, and the sections it does not write stay as they were.
pub proof fn lemma_restore_only_appends(m: ModuleView, policies: Seq<(Seq<char>, u32, u32)>)
    ensures
        ({
            let r = restored(m, policies);
            &&& is_prefix(m.capabilities, r.capabilities)
            &&& is_prefix(m.extensions, r.extensions)
            &&& is_prefix(m.execution_modes, r.execution_modes)
            &&& is_prefix(m.types_global_values, r.types_global_values)
            &&& r.ext_inst_imports == m.ext_inst_imports
            &&& r.memory_model == m.memory_model
            &&& r.entry_points == m.entry_points
            &&& r.debug == m.debug
            &&& r.annotations == m.annotations
            &&& r.functions == m.functions
        }),
{
    lemma_prefix_push(m.capabilities, m.capabilities[0]);
    lemma_prefix_push(m.extensions, m.extensions[0]);
    lemma_prefix_push(m.execution_modes, m.execution_modes[0]);
    lemma_prefix_push(m.types_global_values, m.types_global_values[0]);
    if policies.len() > 0 {
        lemma_restore_states(m, policies);
        let st = restore_states(m, policies);
        lemma_declare_capabilities(m.capabilities, st.caps);
        lemma_declare_once(m.extensions, OP_EXTENSION, float_controls_extension());
    }
}


/// Every instruction appended after `before` in `after`, other than a
/// fast-math default, has operands that no earlier instruction has.
pub open spec fn appends_fresh(before: Seq<InstructionView>, after: Seq<InstructionView>) -> bool {
    forall|j: int, i: int|
        before.len() <= j < after.len() && (#[trigger] after[j]).opcode != OP_EXECUTION_MODE_ID && 0
            <= i < j ==> (#[trigger] after[i]).operands != after[j].operands
}

proof fn lemma_appends_fresh_trans(a: Seq<InstructionView>, b: Seq<InstructionView>, c: Seq<InstructionView>)
    requires
        is_prefix(a, b),
        is_prefix(b, c),
        appends_fresh(a, b),
        appends_fresh(b, c),
    ensures
        appends_fresh(a, c),
{
    assert forall|j: int, i: int|
        a.len() <= j < c.len() && (#[trigger] c[j]).opcode != OP_EXECUTION_MODE_ID && 0 <= i < j implies (
        #[trigger] c[i]).operands != c[j].operands by {
        if j < b.len() {
            lemma_prefix_keeps(b, c, j);
            lemma_prefix_keeps(b, c, i);
            assert(b[i].operands != b[j].operands);
        }
    }
}

proof fn lemma_declare_once_fresh(insts: Seq<InstructionView>, opcode: u32, ops: Seq<OperandView>)
    ensures
        appends_fresh(insts, declare_once(insts, opcode, ops)),
{
    let r = declare_once(insts, opcode, ops);
    assert forall|j: int, i: int|
        insts.len() <= j < r.len() && (#[trigger] r[j]).opcode != OP_EXECUTION_MODE_ID && 0 <= i < j implies (
        #[trigger] r[i]).operands != r[j].operands by {
        assert(j == insts.len());
        assert(r[i] == insts[i]);
        assert(r[j].operands == ops);
    }
}

/// `inst` sets the fast-math default of `entry` for the float type `ty`
/// with the flags constant `flags_id`.
pub open spec fn is_default_of(inst: InstructionView, entry: u32, flags_id: u32, ty: u32) -> bool {
    inst == plain_inst(OP_EXECUTION_MODE_ID, fast_math_default_operands(entry, ty, flags_id))
}

/// The float type whose fast-math default `inst` sets.
pub open spec fn default_type(inst: InstructionView) -> u32 {
    inst.operands[2]->IdRef_0
}

proof fn lemma_emit_widths_shape(
    modes: Seq<InstructionView>,
    caps: Seq<u32>,
    floats: Map<u32, u32>,
    entry: u32,
    fast: bool,
    flags_id: u32,
    listing: Seq<(u32, u32)>,
)
    requires
        forall|i: int, j: int| 0 <= i < j < listing.len() ==> listing[i].0 < listing[j].0,
        forall|i: int| 0 <= i < listing.len() ==> floats[#[trigger] listing[i].1] == listing[i].0,
    ensures
        ({
            let m = emit_widths(modes, caps, entry, fast, flags_id, listing).0;
            &&& appends_fresh(modes, m)
            &&& forall|j: int|
                modes.len() <= j < m.len() && (#[trigger] m[j]).opcode == OP_EXECUTION_MODE_ID
                    ==> is_default_of(m[j], entry, flags_id, default_type(m[j])) && exists|k: int|
                    0 <= k < listing.len() && #[trigger] listing[k].1 == default_type(m[j])
            &&& forall|a: int, b: int|
                modes.len() <= a < b < m.len() && (#[trigger] m[a]).opcode == OP_EXECUTION_MODE_ID
                    && (#[trigger] m[b]).opcode == OP_EXECUTION_MODE_ID ==> floats[default_type(m[a])]
                    < floats[default_type(m[b])]
        }),
    decreases listing.len(),
{
    let m = emit_widths(modes, caps, entry, fast, flags_id, listing).0;
    if listing.len() == 0 {
        assert(m == modes);
    } else {
        let l = listing.drop_last();
        assert forall|i: int, j: int| 0 <= i < j < l.len() implies l[i].0 < l[j].0 by {
            assert(l[i] == listing[i] && l[j] == listing[j]);
        }
        assert forall|i: int| 0 <= i < l.len() implies floats[#[trigger] l[i].1] == l[i].0 by {
            assert(l[i] == listing[i]);
        }
        lemma_emit_widths_shape(modes, caps, floats, entry, fast, flags_id, l);
        let (m0, c0) = emit_widths(modes, caps, entry, fast, flags_id, l);
        let (w, ty) = listing.last();
        let m1 = m0.push(plain_inst(OP_EXECUTION_MODE_ID, fast_math_default_operands(entry, ty, flags_id)));
        let m2 = declare_once(m1, OP_EXECUTION_MODE, mode_operands(entry, denorm_mode(fast), w));
        let m3 = declare_once(m2, OP_EXECUTION_MODE, mode_operands(entry, MODE_ROUNDING_MODE_RTE, w));
        assert(m == m3);
        lemma_prefix_push(m0, m1.last());
        lemma_declare_once(m1, OP_EXECUTION_MODE, mode_operands(entry, denorm_mode(fast), w));
        lemma_declare_once(m2, OP_EXECUTION_MODE, mode_operands(entry, MODE_ROUNDING_MODE_RTE, w));
        lemma_declare_once_fresh(m1, OP_EXECUTION_MODE, mode_operands(entry, denorm_mode(fast), w));
        lemma_declare_once_fresh(m2, OP_EXECUTION_MODE, mode_operands(entry, MODE_ROUNDING_MODE_RTE, w));
        lemma_emit_widths_prefix(modes, caps, entry, fast, flags_id, l);
        assert(appends_fresh(m0, m1)) by {
            assert forall|j: int, i: int|
                m0.len() <= j < m1.len() && (#[trigger] m1[j]).opcode != OP_EXECUTION_MODE_ID && 0 <= i < j
                    implies (#[trigger] m1[i]).operands != m1[j].operands by {
                assert(j == m0.len());
            }
        }
        lemma_appends_fresh_trans(modes, m0, m1);
        lemma_prefix_trans(modes, m0, m1);
        lemma_appends_fresh_trans(modes, m1, m2);
        lemma_prefix_trans(modes, m1, m2);
        lemma_appends_fresh_trans(modes, m2, m3);
        lemma_prefix_trans(m1, m2, m3);
        lemma_prefix_trans(m0, m1, m3);
        assert(listing[listing.len() - 1] == listing.last());
        assert(m2.len() == m1.len() || m2.len() == m1.len() + 1);
        assert forall|j: int| m1.len() <= j < m3.len() implies #[trigger] m3[j].opcode == OP_EXECUTION_MODE by {
            if j < m2.len() {
                lemma_prefix_keeps(m2, m3, j);
                assert(m2[j] == plain_inst(OP_EXECUTION_MODE, mode_operands(entry, denorm_mode(fast), w)));
            } else {
                assert(m3[j] == plain_inst(OP_EXECUTION_MODE, mode_operands(entry, MODE_ROUNDING_MODE_RTE, w)));
            }
        }
        lemma_prefix_keeps(m1, m3, m0.len() as int);
        assert(m3[m0.len() as int] == m1[m0.len() as int]);
        assert forall|j: int|
            modes.len() <= j < m3.len() && (#[trigger] m3[j]).opcode == OP_EXECUTION_MODE_ID implies is_default_of(
            m3[j],
            entry,
            flags_id,
            default_type(m3[j]),
        ) && exists|k: int| 0 <= k < listing.len() && #[trigger] listing[k].1 == default_type(m3[j]) by {
            if j < m0.len() {
                lemma_prefix_keeps(m0, m3, j);
                let k = choose|k: int| 0 <= k < l.len() && #[trigger] l[k].1 == default_type(m0[j]);
                assert(listing[k] == l[k]);
            } else {
                assert(j == m0.len());
                assert(listing[listing.len() - 1].1 == default_type(m3[j]));
            }
        }
        assert forall|a: int, b: int|
            modes.len() <= a < b < m3.len() && (#[trigger] m3[a]).opcode == OP_EXECUTION_MODE_ID
                && (#[trigger] m3[b]).opcode == OP_EXECUTION_MODE_ID implies floats[default_type(m3[a])]
                < floats[default_type(m3[b])] by {
            assert(b < m1.len());
            if b < m0.len() {
                lemma_prefix_keeps(m0, m3, a);
                lemma_prefix_keeps(m0, m3, b);
            } else {
                lemma_prefix_keeps(m0, m3, a);
                let k = choose|k: int| 0 <= k < l.len() && #[trigger] l[k].1 == default_type(m0[a]);
                assert(l[k] == listing[k]);
                assert(floats[l[k].1] == l[k].0);
                assert(listing[k].0 < listing[listing.len() - 1].0);
            }
        }
    }
}

proof fn lemma_emit_widths_prefix(
    modes: Seq<InstructionView>,
    caps: Seq<u32>,
    entry: u32,
    fast: bool,
    flags_id: u32,
    listing: Seq<(u32, u32)>,
)
    ensures
        is_prefix(modes, emit_widths(modes, caps, entry, fast, flags_id, listing).0),
    decreases listing.len(),
{
    if listing.len() == 0 {
        lemma_prefix_push(modes, modes[0]);
    } else {
        lemma_emit_widths_prefix(modes, caps, entry, fast, flags_id, listing.drop_last());
        let (m0, c0) = emit_widths(modes, caps, entry, fast, flags_id, listing.drop_last());
        lemma_emit_width(m0, c0, entry, fast, flags_id, listing.last().0, listing.last().1);
        lemma_prefix_trans(modes, m0, emit_widths(modes, caps, entry, fast, flags_id, listing).0);
    }
}

/// The modes that restoring one policy emits follow the rules of the pass:
/// every denormal or rounding mode it adds is new, the fast-math defaults of
/// that one policy all belong to its entry point and share the one flags
/// constant declared for it, which holds the policy's flags, and they come in
/// strictly increasing float width. (Two policies that name the same entry
/// point each get a constant of their own.)
pub proof fn lemma_restore_step_shape(
    st: RestoreState,
    entries: Seq<InstructionView>,
    edges: Map<u32, Seq<u32>>,
    floats: Map<u32, u32>,
    policy: (Seq<char>, u32, u32),
)
    ensures
        ({
            let st2 = restore_step(st, entries, edges, floats, policy);
            let entry = policy_entry(entries, policy.0, policy.1);
            &&& appends_fresh(st.modes, st2.modes)
            &&& st2.modes.len() > st.modes.len() ==> {
                let flags_id = (st2.next - 1) as u32;
                &&& st2.types.last() == constant_inst(st2.types.last().result_type->Some_0, flags_id, policy.2)
                &&& forall|j: int|
                    st.modes.len() <= j < st2.modes.len() && (#[trigger] st2.modes[j]).opcode
                        == OP_EXECUTION_MODE_ID ==> is_default_of(
                        st2.modes[j],
                        entry,
                        flags_id,
                        default_type(st2.modes[j]),
                    )
            }
            &&& forall|a: int, b: int|
                st.modes.len() <= a < b < st2.modes.len() && (#[trigger] st2.modes[a]).opcode
                    == OP_EXECUTION_MODE_ID && (#[trigger] st2.modes[b]).opcode == OP_EXECUTION_MODE_ID
                    ==> floats[default_type(st2.modes[a])] < floats[default_type(st2.modes[b])]
        }),
{
    let entry = policy_entry(entries, policy.0, policy.1);
    let widths = entry_float_widths(edges, floats, entry);
    let st2 = restore_step(st, entries, edges, floats, policy);
    if widths.is_empty() {
        assert(appends_fresh(st.modes, st2.modes));
    } else {
        lemma_entry_float_widths(edges, floats, entry);
        lemma_entry_float_widths_finite(edges, floats, entry);
        lemma_width_listing_exists(widths);
        let listing = width_listing(widths);
        let (uint, types1, next1) = declare_int(st.types, st.next, 32, 0);
        assert forall|i: int| 0 <= i < listing.len() implies floats[#[trigger] listing[i].1] == listing[i].0 by {
            assert(widths.contains_key(listing[i].0));
        }
        lemma_emit_widths_shape(st.modes, st.caps, floats, entry, policy.2 != 0, next1 as u32, listing);
        assert(st2.types.last() == constant_inst(uint, next1 as u32, policy.2));
        assert((st2.next - 1) as u32 == next1 as u32);
    }
}

/// Restoring adds no capability declaration that is already there, and
/// declares the float-controls extension at most once.
pub proof fn lemma_restore_declarations_fresh(m: ModuleView, policies: Seq<(Seq<char>, u32, u32)>)
    ensures
        appends_fresh(m.capabilities, restored(m, policies).capabilities),
        appends_fresh(m.extensions, restored(m, policies).extensions),
{
    if policies.len() > 0 {
        let st = restore_states(m, policies);
        lemma_declare_capabilities_fresh(m.capabilities, st.caps);
        lemma_declare_once_fresh(m.extensions, OP_EXTENSION, float_controls_extension());
    } else {
        assert(appends_fresh(m.capabilities, m.capabilities));
        assert(appends_fresh(m.extensions, m.extensions));
    }
}

proof fn lemma_declare_capabilities_fresh(insts: Seq<InstructionView>, caps: Seq<u32>)
    ensures
        appends_fresh(insts, declare_capabilities(insts, caps)),
    decreases caps.len(),
{
    if caps.len() == 0 {
        assert(appends_fresh(insts, insts));
    } else {
        lemma_declare_capabilities_fresh(insts, caps.drop_last());
        lemma_declare_capabilities(insts, caps.drop_last());
        let d0 = declare_capabilities(insts, caps.drop_last());
        let ops = seq![OperandView::Capability(caps.last())];
        lemma_declare_once(d0, OP_CAPABILITY, ops);
        lemma_declare_once_fresh(d0, OP_CAPABILITY, ops);
        lemma_appends_fresh_trans(insts, d0, declare_once(d0, OP_CAPABILITY, ops));
    }
}


/// The execution mode that a float-control capability emitted by restoring
/// serves.
pub open spec fn served_mode(c: u32) -> u32 {
    if c == CAP_DENORM_PRESERVE {
        MODE_DENORM_PRESERVE
    } else if c == CAP_DENORM_FLUSH_TO_ZERO {
        MODE_DENORM_FLUSH_TO_ZERO
    } else {
        MODE_ROUNDING_MODE_RTE
    }
}

/// `c` is a denormal or rounding capability, and `modes` declares a mode that
/// it serves.
pub open spec fn capability_backed(modes: Seq<InstructionView>, c: u32) -> bool {
    &&& (c == CAP_DENORM_PRESERVE || c == CAP_DENORM_FLUSH_TO_ZERO || c == CAP_ROUNDING_MODE_RTE)
    &&& exists|e: u32, w: u32| #[trigger] declares_operands(modes, mode_operands(e, served_mode(c), w))
}

proof fn lemma_backed_prefix(a: Seq<InstructionView>, b: Seq<InstructionView>, c: u32)
    requires
        is_prefix(a, b),
        capability_backed(a, c),
    ensures
        capability_backed(b, c),
{
    let (e, w) = choose|e: u32, w: u32| #[trigger] declares_operands(a, mode_operands(e, served_mode(c), w));
    lemma_declares_prefix(a, b, mode_operands(e, served_mode(c), w));
}

proof fn lemma_emit_widths_backed(
    modes: Seq<InstructionView>,
    caps: Seq<u32>,
    entry: u32,
    fast: bool,
    flags_id: u32,
    listing: Seq<(u32, u32)>,
)
    requires
        forall|j: int| 0 <= j < caps.len() ==> capability_backed(modes, #[trigger] caps[j]),
    ensures
        ({
            let (m, c) = emit_widths(modes, caps, entry, fast, flags_id, listing);
            forall|j: int| 0 <= j < c.len() ==> capability_backed(m, #[trigger] c[j])
        }),
    decreases listing.len(),
{
    if listing.len() > 0 {
        lemma_emit_widths_backed(modes, caps, entry, fast, flags_id, listing.drop_last());
        let (m0, c0) = emit_widths(modes, caps, entry, fast, flags_id, listing.drop_last());
        let (w, ty) = listing.last();
        lemma_emit_width(m0, c0, entry, fast, flags_id, w, ty);
        let (m1, c1) = emit_width(m0, c0, entry, fast, flags_id, w, ty);
        assert forall|j: int| 0 <= j < c1.len() implies capability_backed(m1, #[trigger] c1[j]) by {
            if j < c0.len() {
                assert(c1[j] == c0[j]);
                lemma_backed_prefix(m0, m1, c0[j]);
            } else if j == c0.len() {
                assert(c1[j] == denorm_capability(fast));
                assert(served_mode(denorm_capability(fast)) == denorm_mode(fast));
                assert(declares_operands(m1, mode_operands(entry, served_mode(c1[j]), w)));
            } else {
                assert(c1[j] == CAP_ROUNDING_MODE_RTE);
                assert(declares_operands(m1, mode_operands(entry, served_mode(c1[j]), w)));
            }
        }
    }
}

/// Every capability that restoring finds needed is a denormal or rounding
/// capability serving a mode among the restored modes.
pub proof fn lemma_restore_capabilities_backed(m: ModuleView, policies: Seq<(Seq<char>, u32, u32)>)
    ensures
        ({
            let st = restore_states(m, policies);
            forall|j: int| 0 <= j < st.caps.len() ==> capability_backed(st.modes, #[trigger] st.caps[j])
        }),
    decreases policies.len(),
{
    if policies.len() > 0 {
        let rest = policies.drop_last();
        lemma_restore_capabilities_backed(m, rest);
        let st0 = restore_states(m, rest);
        let p = policies.last();
        let entry = policy_entry(m.entry_points, p.0, p.1);
        let widths = entry_float_widths(module_edges(m), module_floats(m), entry);
        if !widths.is_empty() {
            let (uint, types1, next1) = declare_int(st0.types, st0.next, 32, 0);
            lemma_emit_widths_backed(st0.modes, st0.caps, entry, p.2 != 0, next1 as u32, width_listing(widths));
        }
    }
}

/// Every capability declaration that declaring `caps` appends declares one
/// of `caps`.
pub proof fn lemma_declare_capabilities_from(insts: Seq<InstructionView>, caps: Seq<u32>)
    ensures
        forall|j: int|
            insts.len() <= j < declare_capabilities(insts, caps).len() ==> exists|c: u32|
                caps.contains(c) && (#[trigger] declare_capabilities(insts, caps)[j]).operands == seq![
                    OperandView::Capability(c),
                ],
    decreases caps.len(),
{
    if caps.len() > 0 {
        let rest = caps.drop_last();
        lemma_declare_capabilities_from(insts, rest);
        lemma_declare_capabilities(insts, rest);
        let d0 = declare_capabilities(insts, rest);
        let d1 = declare_capabilities(insts, caps);
        let ops = seq![OperandView::Capability(caps.last())];
        lemma_declare_once(d0, OP_CAPABILITY, ops);
        assert forall|j: int| insts.len() <= j < d1.len() implies exists|c: u32|
            caps.contains(c) && (#[trigger] d1[j]).operands == seq![OperandView::Capability(c)] by {
            if j < d0.len() {
                lemma_prefix_keeps(d0, d1, j);
                let c = choose|c: u32| rest.contains(c) && (#[trigger] d0[j]).operands == seq![OperandView::Capability(c)];
                let k = choose|k: int| 0 <= k < rest.len() && rest[k] == c;
                assert(caps[k] == c);
                assert(caps.contains(c) && d1[j].operands == seq![OperandView::Capability(c)]);
            } else {
                assert(!declares_operands(d0, ops));
                assert(d1 == d0.push(plain_inst(OP_CAPABILITY, ops)));
                assert(d1[j].operands == ops);
                let c = caps.last();
                assert(caps[caps.len() - 1] == c);
                assert(caps.contains(c) && d1[j].operands == seq![OperandView::Capability(c)]);
            }
        }
    }
}

/// Restoring the same module with the same policies always gives the same
/// module: in particular the float type named for each width does not
/// depend on the order in which any map is walked.
pub proof fn lemma_restore_deterministic(
    m1: ModuleView,
    m2: ModuleView,
    p1: Seq<(Seq<char>, u32, u32)>,
    p2: Seq<(Seq<char>, u32, u32)>,
)
    requires
        m1 == m2,
        p1 == p2,
    ensures
        restored(m1, p1) == restored(m2, p2),
{
}

} // verus!
