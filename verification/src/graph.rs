//! The dependency graph of a module (which ids each id uses) and the widths
//! of its float types.

use vstd::prelude::*;
use std::collections::HashMap;
use crate::codes::OP_TYPE_FLOAT;
use crate::model::{
    insts_view, operands_view, FunctionView, Instruction, InstructionView, Module, ModuleView, Operand,
    OperandView,
};
use crate::reach::{edges_view, successors};

verus! {

/// The ids in a sequence of operands that are id references, in order.
pub open spec fn id_refs(ops: Seq<OperandView>) -> Seq<u32>
    decreases ops.len(),
{
    if ops.len() == 0 {
        Seq::empty()
    } else {
        id_refs(ops.drop_last()) + match ops.last() {
            OperandView::IdRef(x) => seq![x],
            _ => Seq::empty(),
        }
    }
}

/// An optional id as a sequence of at most one id.
pub open spec fn opt_id(o: Option<u32>) -> Seq<u32> {
    match o {
        Some(x) => seq![x],
        None => Seq::empty(),
    }
}

/// What an instruction uses: its result type, then its id operands.
pub open spec fn inst_uses(i: InstructionView) -> Seq<u32> {
    opt_id(i.result_type) + id_refs(i.operands)
}

/// `edges` with `deps` appended to the dependencies of `id`.
pub open spec fn add_deps(edges: Map<u32, Seq<u32>>, id: u32, deps: Seq<u32>) -> Map<u32, Seq<u32>> {
    edges.insert(id, successors(edges, id) + deps)
}

/// Each instruction with a result id depends on what it uses; instructions
/// sharing a result id pool their dependencies in order.
pub open spec fn global_edges(insts: Seq<InstructionView>) -> Map<u32, Seq<u32>>
    decreases insts.len(),
{
    if insts.len() == 0 {
        Map::empty()
    } else {
        let edges = global_edges(insts.drop_last());
        let i = insts.last();
        match i.result_id {
            Some(id) => add_deps(edges, id, inst_uses(i)),
            None => edges,
        }
    }
}

/// What the instructions of a function contribute to the function's own
/// dependencies: each one's result id, result type and id operands.
pub open spec fn body_deps(insts: Seq<InstructionView>) -> Seq<u32>
    decreases insts.len(),
{
    if insts.len() == 0 {
        Seq::empty()
    } else {
        body_deps(insts.drop_last()) + opt_id(insts.last().result_id) + inst_uses(insts.last())
    }
}

/// The result id of a function's defining instruction.
pub open spec fn function_id(f: FunctionView) -> u32 {
    f.def->Some_0.result_id->Some_0
}

/// Every function has a defining instruction with a result id.
pub open spec fn functions_identified(fns: Seq<FunctionView>) -> bool {
    forall|k: int|
        0 <= k < fns.len() ==> (#[trigger] fns[k]).def is Some && fns[k].def->Some_0.result_id is Some
}

/// `edges` extended so that each function depends on everything its
/// instructions define and use.
pub open spec fn function_edges(edges: Map<u32, Seq<u32>>, fns: Seq<FunctionView>) -> Map<
    u32,
    Seq<u32>,
>
    decreases fns.len(),
{
    if fns.len() == 0 {
        edges
    } else {
        let f = fns.last();
        add_deps(function_edges(edges, fns.drop_last()), function_id(f), body_deps(f.all_insts()))
    }
}

/// The instructions of a sequence of functions, function after function.
pub open spec fn functions_insts(fns: Seq<FunctionView>) -> Seq<InstructionView>
    decreases fns.len(),
{
    if fns.len() == 0 {
        Seq::empty()
    } else {
        functions_insts(fns.drop_last()) + fns.last().all_insts()
    }
}

/// The module-level instructions, section by section.
pub open spec fn global_insts(m: ModuleView) -> Seq<InstructionView> {
    m.capabilities + m.extensions + m.ext_inst_imports + m.memory_model + m.entry_points
        + m.execution_modes + m.debug + m.annotations + m.types_global_values
}

/// Every instruction of the module, in module order.
pub open spec fn module_insts(m: ModuleView) -> Seq<InstructionView> {
    global_insts(m) + functions_insts(m.functions)
}

/// The dependency graph of a module.
pub open spec fn module_edges(m: ModuleView) -> Map<u32, Seq<u32>> {
    function_edges(global_edges(module_insts(m)), m.functions)
}

/// The width operand of a float type declaration.
pub open spec fn float_width(i: InstructionView) -> u32 {
    i.operands[0]->LiteralBit32_0
}

/// The float types declared by the instructions (with the later declaration
/// of an id winning), each with its width.
pub open spec fn float_types(insts: Seq<InstructionView>) -> Map<u32, u32>
    decreases insts.len(),
{
    if insts.len() == 0 {
        Map::empty()
    } else {
        let floats = float_types(insts.drop_last());
        let i = insts.last();
        if i.result_id is Some && i.opcode == OP_TYPE_FLOAT {
            floats.insert(i.result_id->Some_0, float_width(i))
        } else {
            floats
        }
    }
}

/// The float types of a module with their widths.
pub open spec fn module_floats(m: ModuleView) -> Map<u32, u32> {
    float_types(module_insts(m))
}

/// Every float type declaration with a result id gives its width as a
/// 32-bit literal.
pub open spec fn float_widths_given(insts: Seq<InstructionView>) -> bool {
    forall|k: int|
        0 <= k < insts.len() && (#[trigger] insts[k]).result_id is Some && insts[k].opcode
            == OP_TYPE_FLOAT ==> insts[k].operands.len() >= 1 && insts[k].operands[0] is LiteralBit32
}

/// Appends the ids among `ops` that are id references to `deps`.
fn push_id_refs(deps: &mut Vec<u32>, ops: &Vec<Operand>)
    ensures
        final(deps)@ == old(deps)@ + id_refs(operands_view(ops@)),
{
    let ghost start = deps@;
    let mut k: usize = 0;
    while k < ops.len()
        invariant
            k <= ops.len(),
            deps@ == start + id_refs(operands_view(ops@.subrange(0, k as int))),
        decreases ops.len() - k,
    {
        let ghost pre = ops@.subrange(0, k as int);
        let ghost post = ops@.subrange(0, k + 1);
        assert(operands_view(post).drop_last() =~= operands_view(pre));
        match &ops[k] {
            Operand::IdRef(x) => {
                deps.push(*x);
            },
            _ => {},
        }
        assert(operands_view(post).last() == ops@[k as int]@);
        k = k + 1;
    }
    assert(ops@.subrange(0, ops.len() as int) =~= ops@);
}

/// Appends what an instruction uses (its result type, then its id operands)
/// to `deps`.
fn push_uses(deps: &mut Vec<u32>, inst: &Instruction)
    ensures
        final(deps)@ == old(deps)@ + inst_uses(inst@),
{
    let ghost start = deps@;
    match inst.result_type {
        Some(t) => {
            deps.push(t);
        },
        None => {},
    }
    assert(deps@ == start + opt_id(inst.result_type));
    push_id_refs(deps, &inst.operands);
    assert(deps@ =~= start + inst_uses(inst@));
}

/// Takes the dependency list of `id` out of `edges` (empty where it has none).
fn take_deps(edges: &mut HashMap<u32, Vec<u32>>, id: u32) -> (deps: Vec<u32>)
    ensures
        deps@ == successors(edges_view(old(edges)@), id),
        edges_view(final(edges)@) == edges_view(old(edges)@).remove(id),
{
    let r = edges.remove(&id);
    assert(edges_view(edges@) =~= edges_view(old(edges)@).remove(id));
    match r {
        Some(v) => v,
        None => Vec::new(),
    }
}

/// Records one module-level instruction in the graph and the float table.
fn add_global_inst(
    edges: &mut HashMap<u32, Vec<u32>>,
    floats: &mut HashMap<u32, u32>,
    inst: &Instruction,
    Ghost(prefix): Ghost<Seq<InstructionView>>,
)
    requires
        edges_view(old(edges)@) == global_edges(prefix),
        old(floats)@ == float_types(prefix),
        float_widths_given(seq![inst@]),
    ensures
        edges_view(final(edges)@) == global_edges(prefix.push(inst@)),
        final(floats)@ == float_types(prefix.push(inst@)),
{
    let ghost all = prefix.push(inst@);
    assert(all.drop_last() =~= prefix);
    match inst.result_id {
        Some(id) => {
            let ghost e0 = edges_view(edges@);
            let mut deps = take_deps(edges, id);
            push_uses(&mut deps, inst);
            let ghost d = deps@;
            assert(d == successors(e0, id) + inst_uses(inst@));
            let ghost mid = edges@;
            edges.insert(id, deps);
            assert(edges@ == mid.insert(id, deps));
            assert(edges_view(edges@) =~= edges_view(mid).insert(id, d));
            assert(global_edges(all) == add_deps(e0, id, inst_uses(inst@)));
            assert(edges_view(edges@) =~= global_edges(all));
            if inst.opcode == OP_TYPE_FLOAT {
                assert(seq![inst@][0] == inst@);
                match &inst.operands[0] {
                    Operand::LiteralBit32(w) => {
                        floats.insert(id, *w);
                    },
                    _ => {},
                }
            }
        },
        None => {},
    }
}

/// Records a section of module-level instructions.
fn add_global_section(
    edges: &mut HashMap<u32, Vec<u32>>,
    floats: &mut HashMap<u32, u32>,
    insts: &Vec<Instruction>,
    Ghost(prefix): Ghost<Seq<InstructionView>>,
)
    requires
        edges_view(old(edges)@) == global_edges(prefix),
        old(floats)@ == float_types(prefix),
        float_widths_given(insts_view(insts@)),
    ensures
        edges_view(final(edges)@) == global_edges(prefix + insts_view(insts@)),
        final(floats)@ == float_types(prefix + insts_view(insts@)),
{
    let ghost all = insts_view(insts@);
    let mut k: usize = 0;
    while k < insts.len()
        invariant
            k <= insts.len(),
            all == insts_view(insts@),
            float_widths_given(all),
            edges_view(edges@) == global_edges(prefix + all.subrange(0, k as int)),
            floats@ == float_types(prefix + all.subrange(0, k as int)),
        decreases insts.len() - k,
    {
        assert(seq![insts@[k as int]@][0] == all[k as int]);
        add_global_inst(edges, floats, &insts[k], Ghost(prefix + all.subrange(0, k as int)));
        assert((prefix + all.subrange(0, k as int)).push(all[k as int]) =~= prefix
            + all.subrange(0, k + 1));
        k = k + 1;
    }
    assert(all.subrange(0, insts.len() as int) =~= all);
}


pub(crate) proof fn lemma_widths_given_split(a: Seq<InstructionView>, b: Seq<InstructionView>)
    requires
        float_widths_given(a + b),
    ensures
        float_widths_given(a),
        float_widths_given(b),
{
    assert forall|k: int|
        0 <= k < a.len() && (#[trigger] a[k]).result_id is Some && a[k].opcode
            == OP_TYPE_FLOAT implies a[k].operands.len() >= 1 && a[k].operands[0] is LiteralBit32 by {
        assert((a + b)[k] == a[k]);
    }
    assert forall|k: int|
        0 <= k < b.len() && (#[trigger] b[k]).result_id is Some && b[k].opcode
            == OP_TYPE_FLOAT implies b[k].operands.len() >= 1 && b[k].operands[0] is LiteralBit32 by {
        assert((a + b)[a.len() + k] == b[k]);
    }
}

proof fn lemma_body_deps_concat(a: Seq<InstructionView>, b: Seq<InstructionView>)
    ensures
        body_deps(a + b) == body_deps(a) + body_deps(b),
    decreases b.len(),
{
    if b.len() == 0 {
        assert(a + b =~= a);
        assert(body_deps(b) =~= Seq::<u32>::empty());
        assert(body_deps(a) + body_deps(b) =~= body_deps(a));
    } else {
        lemma_body_deps_concat(a, b.drop_last());
        assert((a + b).drop_last() =~= a + b.drop_last());
        assert((a + b).last() == b.last());
        assert(body_deps(a + b) =~= body_deps(a) + body_deps(b));
    }
}

proof fn lemma_functions_insts_step(fns: Seq<FunctionView>, k: int)
    requires
        0 <= k < fns.len(),
    ensures
        functions_insts(fns.subrange(0, k + 1)) == functions_insts(fns.subrange(0, k))
            + fns[k].all_insts(),
{
    assert(fns.subrange(0, k + 1).drop_last() =~= fns.subrange(0, k));
}

proof fn lemma_function_edges_step(e: Map<u32, Seq<u32>>, fns: Seq<FunctionView>, k: int)
    requires
        0 <= k < fns.len(),
    ensures
        function_edges(e, fns.subrange(0, k + 1)) == add_deps(
            function_edges(e, fns.subrange(0, k)),
            function_id(fns[k]),
            body_deps(fns[k].all_insts()),
        ),
{
    assert(fns.subrange(0, k + 1).drop_last() =~= fns.subrange(0, k));
}

/// Appends what one instruction of a function contributes to the function's
/// dependencies: its result id, result type and id operands.
fn push_body_inst(deps: &mut Vec<u32>, inst: &Instruction)
    ensures
        final(deps)@ == old(deps)@ + body_deps(seq![inst@]),
{
    let ghost start = deps@;
    match inst.result_id {
        Some(x) => {
            deps.push(x);
        },
        None => {},
    }
    push_uses(deps, inst);
    assert(seq![inst@].drop_last() =~= Seq::<InstructionView>::empty());
    assert(seq![inst@].last() == inst@);
    assert(body_deps(Seq::<InstructionView>::empty()) == Seq::<u32>::empty());
    assert(deps@ =~= start + body_deps(seq![inst@]));
}

/// Appends the contributions of a run of function instructions.
fn push_body_insts(deps: &mut Vec<u32>, insts: &Vec<Instruction>)
    ensures
        final(deps)@ == old(deps)@ + body_deps(insts_view(insts@)),
{
    let ghost start = deps@;
    let ghost all = insts_view(insts@);
    let mut k: usize = 0;
    while k < insts.len()
        invariant
            k <= insts.len(),
            all == insts_view(insts@),
            deps@ == start + body_deps(all.subrange(0, k as int)),
        decreases insts.len() - k,
    {
        push_body_inst(deps, &insts[k]);
        proof {
            lemma_body_deps_concat(all.subrange(0, k as int), seq![all[k as int]]);
            assert(all.subrange(0, k as int) + seq![all[k as int]] =~= all.subrange(0, k + 1));
        }
        k = k + 1;
    }
    assert(all.subrange(0, insts.len() as int) =~= all);
}

/// Builds the dependency graph of a module and its table of float types:
/// every instruction with a result id depends on its result type and its id
/// operands, and every function on all that its instructions define and use.
pub fn dependency_graph(m: &Module) -> (r: (HashMap<u32, Vec<u32>>, HashMap<u32, u32>))
    requires
        functions_identified(m@.functions),
        float_widths_given(module_insts(m@)),
    ensures
        edges_view(r.0@) == module_edges(m@),
        r.1@ == module_floats(m@),
{
    let ghost mv = m@;
    let mut edges: HashMap<u32, Vec<u32>> = HashMap::new();
    let mut floats: HashMap<u32, u32> = HashMap::new();
    proof {
        lemma_widths_given_split(global_insts(mv), functions_insts(mv.functions));
        assert(edges_view(edges@) =~= global_edges(Seq::empty()));
    }
    let ghost mut prefix: Seq<InstructionView> = Seq::empty();
    proof {
        let s1 = mv.capabilities;
        let s2 = s1 + mv.extensions;
        let s3 = s2 + mv.ext_inst_imports;
        let s4 = s3 + mv.memory_model;
        let s5 = s4 + mv.entry_points;
        let s6 = s5 + mv.execution_modes;
        let s7 = s6 + mv.debug;
        let s8 = s7 + mv.annotations;
        lemma_widths_given_split(s8, mv.types_global_values);
        lemma_widths_given_split(s7, mv.annotations);
        lemma_widths_given_split(s6, mv.debug);
        lemma_widths_given_split(s5, mv.execution_modes);
        lemma_widths_given_split(s4, mv.entry_points);
        lemma_widths_given_split(s3, mv.memory_model);
        lemma_widths_given_split(s2, mv.ext_inst_imports);
        lemma_widths_given_split(s1, mv.extensions);
        assert(Seq::<InstructionView>::empty() + s1 =~= s1);
    }
    add_global_section(&mut edges, &mut floats, &m.capabilities, Ghost(prefix));
    proof { prefix = prefix + mv.capabilities; }
    add_global_section(&mut edges, &mut floats, &m.extensions, Ghost(prefix));
    proof { prefix = prefix + mv.extensions; }
    add_global_section(&mut edges, &mut floats, &m.ext_inst_imports, Ghost(prefix));
    proof { prefix = prefix + mv.ext_inst_imports; }
    match &m.memory_model {
        Some(i) => {
            assert(mv.memory_model =~= seq![i@]);
            add_global_inst(&mut edges, &mut floats, i, Ghost(prefix));
            assert(prefix.push(i@) =~= prefix + mv.memory_model);
        },
        None => {
            assert(prefix + mv.memory_model =~= prefix);
        },
    }
    proof { prefix = prefix + mv.memory_model; }
    add_global_section(&mut edges, &mut floats, &m.entry_points, Ghost(prefix));
    proof { prefix = prefix + mv.entry_points; }
    add_global_section(&mut edges, &mut floats, &m.execution_modes, Ghost(prefix));
    proof { prefix = prefix + mv.execution_modes; }
    add_global_section(&mut edges, &mut floats, &m.debug, Ghost(prefix));
    proof { prefix = prefix + mv.debug; }
    add_global_section(&mut edges, &mut floats, &m.annotations, Ghost(prefix));
    proof { prefix = prefix + mv.annotations; }
    add_global_section(&mut edges, &mut floats, &m.types_global_values, Ghost(prefix));
    proof {
        prefix = prefix + mv.types_global_values;
        assert(prefix =~= global_insts(mv));
        assert(prefix + functions_insts(mv.functions.subrange(0, 0)) =~= prefix);
    }
    let fcount = m.functions.len();
    proof {
        lemma_widths_given_functions(mv.functions);
    }
    let mut k: usize = 0;
    while k < fcount
        invariant
            fcount == m.functions.len(),
            mv == m@,
            k <= fcount,
            forall|j: int| 0 <= j < mv.functions.len() ==> float_widths_given(#[trigger] mv.functions[j].all_insts()),
            prefix == global_insts(mv),
            edges_view(edges@) == global_edges(
                prefix + functions_insts(mv.functions.subrange(0, k as int)),
            ),
            floats@ == float_types(prefix + functions_insts(mv.functions.subrange(0, k as int))),
        decreases fcount - k,
    {
        let f = &m.functions[k];
        let ghost before = prefix + functions_insts(mv.functions.subrange(0, k as int));
        let ghost fv = mv.functions[k as int];
        assert(fv == f@);
        proof {
            lemma_functions_insts_step(mv.functions, k as int);
            assert(float_widths_given(fv.all_insts()));
        }
        match &f.def {
            Some(d) => {
                proof {
                    assert(fv.all_insts() == seq![d@] + fv.body);
                    lemma_widths_given_split(seq![d@], fv.body);
                }
                add_global_inst(&mut edges, &mut floats, d, Ghost(before));
                add_global_section(&mut edges, &mut floats, &f.body, Ghost(before.push(d@)));
                assert(before.push(d@) + fv.body =~= before + fv.all_insts());
            },
            None => {
                add_global_section(&mut edges, &mut floats, &f.body, Ghost(before));
            },
        }
        assert(before + fv.all_insts() =~= prefix + functions_insts(
            mv.functions.subrange(0, k + 1),
        ));
        k = k + 1;
    }
    assert(mv.functions.subrange(0, fcount as int) =~= mv.functions);
    let ghost g = global_edges(module_insts(mv));
    assert(edges_view(edges@) == g);
    assert(edges_view(edges@) == function_edges(g, mv.functions.subrange(0, 0)));
    let mut k: usize = 0;
    while k < fcount
        invariant
            fcount == m.functions.len(),
            mv == m@,
            k <= fcount,
            functions_identified(mv.functions),
            edges_view(edges@) == function_edges(g, mv.functions.subrange(0, k as int)),
        decreases fcount - k,
    {
        let f = &m.functions[k];
        let ghost fv = mv.functions[k as int];
        assert(fv == f@);
        proof {
            lemma_function_edges_step(g, mv.functions, k as int);
        }
        let def = f.def.as_ref().unwrap();
        let id = def.result_id.unwrap();
        let ghost e0 = edges_view(edges@);
        let mut deps = take_deps(&mut edges, id);
        push_body_inst(&mut deps, def);
        push_body_insts(&mut deps, &f.body);
        proof {
            lemma_body_deps_concat(seq![def@], fv.body);
            assert(fv.all_insts() == seq![def@] + fv.body);
        }
        let ghost d = deps@;
        assert(function_id(fv) == id);
        assert(d =~= successors(e0, id) + body_deps(fv.all_insts()));
        let ghost mid = edges@;
        edges.insert(id, deps);
        assert(edges_view(edges@) =~= edges_view(mid).insert(id, d));
        assert(edges_view(edges@) =~= add_deps(e0, id, body_deps(fv.all_insts())));
        k = k + 1;
    }
    (edges, floats)
}

proof fn lemma_widths_given_functions(fns: Seq<FunctionView>)
    requires
        float_widths_given(functions_insts(fns)),
    ensures
        forall|j: int| 0 <= j < fns.len() ==> float_widths_given(#[trigger] fns[j].all_insts()),
    decreases fns.len(),
{
    if fns.len() > 0 {
        lemma_widths_given_split(functions_insts(fns.drop_last()), fns.last().all_insts());
        lemma_widths_given_functions(fns.drop_last());
        assert forall|j: int| 0 <= j < fns.len() implies float_widths_given(
            #[trigger] fns[j].all_insts(),
        ) by {
            if j < fns.len() - 1 {
                assert(fns.drop_last()[j] == fns[j]);
            }
        }
    }
}

// ----- what the graph records -----

/// `i` is an instruction of the module: one of its module-level sections, or
/// the defining instruction or a body instruction of one of its functions.
pub open spec fn in_module(m: ModuleView, i: InstructionView) -> bool {
    ||| m.capabilities.contains(i)
    ||| m.extensions.contains(i)
    ||| m.ext_inst_imports.contains(i)
    ||| m.memory_model.contains(i)
    ||| m.entry_points.contains(i)
    ||| m.execution_modes.contains(i)
    ||| m.debug.contains(i)
    ||| m.annotations.contains(i)
    ||| m.types_global_values.contains(i)
    ||| exists|k: int|
        0 <= k < m.functions.len() && ((#[trigger] m.functions[k]).def == Some(i)
            || m.functions[k].body.contains(i))
}

proof fn lemma_concat_contains<T>(a: Seq<T>, b: Seq<T>, x: T)
    ensures
        a.contains(x) || b.contains(x) ==> (a + b).contains(x),
{
    if a.contains(x) {
        let j = choose|j: int| 0 <= j < a.len() && a[j] == x;
        assert((a + b)[j] == x);
    } else if b.contains(x) {
        let j = choose|j: int| 0 <= j < b.len() && b[j] == x;
        assert((a + b)[a.len() + j] == x);
    }
}

proof fn lemma_add_deps_keeps(e: Map<u32, Seq<u32>>, id: u32, d: Seq<u32>, r: u32, x: u32)
    ensures
        successors(e, r).contains(x) ==> successors(add_deps(e, id, d), r).contains(x),
        r == id && d.contains(x) ==> successors(add_deps(e, id, d), r).contains(x),
{
    lemma_concat_contains(successors(e, id), d, x);
}

proof fn lemma_id_refs_contains(ops: Seq<OperandView>, j: int)
    requires
        0 <= j < ops.len(),
        ops[j] is IdRef,
    ensures
        id_refs(ops).contains(ops[j]->IdRef_0),
    decreases ops.len(),
{
    let x = ops[j]->IdRef_0;
    let tail = match ops.last() {
        OperandView::IdRef(y) => seq![y],
        _ => Seq::<u32>::empty(),
    };
    assert(id_refs(ops) == id_refs(ops.drop_last()) + tail);
    if j < ops.len() - 1 {
        lemma_id_refs_contains(ops.drop_last(), j);
        assert(ops.drop_last()[j] == ops[j]);
        lemma_concat_contains(id_refs(ops.drop_last()), tail, x);
    } else {
        assert(seq![x][0] == x);
        lemma_concat_contains(id_refs(ops.drop_last()), seq![x], x);
    }
}

/// What an instruction uses: its result type and each id operand.
proof fn lemma_uses_contain(i: InstructionView)
    ensures
        i.result_type is Some ==> inst_uses(i).contains(i.result_type->Some_0),
        forall|j: int|
            0 <= j < i.operands.len() && (#[trigger] i.operands[j]) is IdRef ==> inst_uses(i).contains(
                i.operands[j]->IdRef_0,
            ),
{
    if i.result_type is Some {
        assert(opt_id(i.result_type)[0] == i.result_type->Some_0);
        lemma_concat_contains(opt_id(i.result_type), id_refs(i.operands), i.result_type->Some_0);
    }
    assert forall|j: int| 0 <= j < i.operands.len() && (#[trigger] i.operands[j]) is IdRef implies inst_uses(
        i,
    ).contains(i.operands[j]->IdRef_0) by {
        lemma_id_refs_contains(i.operands, j);
        lemma_concat_contains(opt_id(i.result_type), id_refs(i.operands), i.operands[j]->IdRef_0);
    }
}

proof fn lemma_global_edges_record(insts: Seq<InstructionView>, k: int, x: u32)
    requires
        0 <= k < insts.len(),
        insts[k].result_id is Some,
        inst_uses(insts[k]).contains(x),
    ensures
        successors(global_edges(insts), insts[k].result_id->Some_0).contains(x),
    decreases insts.len(),
{
    let r = insts[k].result_id->Some_0;
    let prev = global_edges(insts.drop_last());
    let last = insts.last();
    if k < insts.len() - 1 {
        assert(insts.drop_last()[k] == insts[k]);
        lemma_global_edges_record(insts.drop_last(), k, x);
        if last.result_id is Some {
            lemma_add_deps_keeps(prev, last.result_id->Some_0, inst_uses(last), r, x);
        }
    } else {
        lemma_add_deps_keeps(prev, r, inst_uses(last), r, x);
    }
}

proof fn lemma_function_edges_keep(e: Map<u32, Seq<u32>>, fns: Seq<FunctionView>, r: u32, x: u32)
    requires
        successors(e, r).contains(x),
    ensures
        successors(function_edges(e, fns), r).contains(x),
    decreases fns.len(),
{
    if fns.len() > 0 {
        lemma_function_edges_keep(e, fns.drop_last(), r, x);
        let f = fns.last();
        lemma_add_deps_keeps(function_edges(e, fns.drop_last()), function_id(f), body_deps(f.all_insts()), r, x);
    }
}

proof fn lemma_functions_insts_contains(fns: Seq<FunctionView>, k: int, i: InstructionView)
    requires
        0 <= k < fns.len(),
        fns[k].all_insts().contains(i),
    ensures
        functions_insts(fns).contains(i),
    decreases fns.len(),
{
    if k < fns.len() - 1 {
        assert(fns.drop_last()[k] == fns[k]);
        lemma_functions_insts_contains(fns.drop_last(), k, i);
    }
    lemma_concat_contains(functions_insts(fns.drop_last()), fns.last().all_insts(), i);
}

proof fn lemma_all_insts_contains(f: FunctionView, i: InstructionView)
    requires
        f.def == Some(i) || f.body.contains(i),
    ensures
        f.all_insts().contains(i),
{
    match f.def {
        Some(d) => {
            if f.def == Some(i) {
                assert(seq![d][0] == i);
            }
            lemma_concat_contains(seq![d], f.body, i);
        },
        None => {},
    }
}

proof fn lemma_in_module_insts(m: ModuleView, i: InstructionView)
    requires
        in_module(m, i),
    ensures
        module_insts(m).contains(i),
{
    let s1 = m.capabilities;
    let s2 = s1 + m.extensions;
    let s3 = s2 + m.ext_inst_imports;
    let s4 = s3 + m.memory_model;
    let s5 = s4 + m.entry_points;
    let s6 = s5 + m.execution_modes;
    let s7 = s6 + m.debug;
    let s8 = s7 + m.annotations;
    let s9 = s8 + m.types_global_values;
    lemma_concat_contains(s1, m.extensions, i);
    lemma_concat_contains(s2, m.ext_inst_imports, i);
    lemma_concat_contains(s3, m.memory_model, i);
    lemma_concat_contains(s4, m.entry_points, i);
    lemma_concat_contains(s5, m.execution_modes, i);
    lemma_concat_contains(s6, m.debug, i);
    lemma_concat_contains(s7, m.annotations, i);
    lemma_concat_contains(s8, m.types_global_values, i);
    assert(global_insts(m) == s9);
    if exists|k: int|
        0 <= k < m.functions.len() && ((#[trigger] m.functions[k]).def == Some(i)
            || m.functions[k].body.contains(i)) {
        let k = choose|k: int|
            0 <= k < m.functions.len() && ((#[trigger] m.functions[k]).def == Some(i)
                || m.functions[k].body.contains(i));
        lemma_all_insts_contains(m.functions[k], i);
        lemma_functions_insts_contains(m.functions, k, i);
    }
    lemma_concat_contains(s9, functions_insts(m.functions), i);
}

/// Every instruction of a module that defines a result depends, in the
/// module's dependency graph, on its result type and on every id it takes as
/// an operand: a value leads to its type, a variable to its pointer type, a
/// constant to its type.
pub proof fn lemma_results_depend_on_type_and_operands(m: ModuleView, i: InstructionView)
    requires
        in_module(m, i),
        i.result_id is Some,
    ensures
        i.result_type is Some ==> successors(module_edges(m), i.result_id->Some_0).contains(
            i.result_type->Some_0,
        ),
        forall|j: int|
            0 <= j < i.operands.len() && (#[trigger] i.operands[j]) is IdRef ==> successors(
                module_edges(m),
                i.result_id->Some_0,
            ).contains(i.operands[j]->IdRef_0),
{
    let insts = module_insts(m);
    let r = i.result_id->Some_0;
    lemma_in_module_insts(m, i);
    let k = choose|k: int| 0 <= k < insts.len() && insts[k] == i;
    lemma_uses_contain(i);
    if i.result_type is Some {
        lemma_global_edges_record(insts, k, i.result_type->Some_0);
        lemma_function_edges_keep(global_edges(insts), m.functions, r, i.result_type->Some_0);
    }
    assert forall|j: int| 0 <= j < i.operands.len() && (#[trigger] i.operands[j]) is IdRef implies successors(
        module_edges(m),
        r,
    ).contains(i.operands[j]->IdRef_0) by {
        lemma_global_edges_record(insts, k, i.operands[j]->IdRef_0);
        lemma_function_edges_keep(global_edges(insts), m.functions, r, i.operands[j]->IdRef_0);
    }
}

proof fn lemma_body_deps_record(insts: Seq<InstructionView>, k: int, x: u32)
    requires
        0 <= k < insts.len(),
        opt_id(insts[k].result_id).contains(x) || inst_uses(insts[k]).contains(x),
    ensures
        body_deps(insts).contains(x),
    decreases insts.len(),
{
    let last = insts.last();
    let tail = opt_id(last.result_id) + inst_uses(last);
    assert(body_deps(insts) == body_deps(insts.drop_last()) + tail);
    if k < insts.len() - 1 {
        assert(insts.drop_last()[k] == insts[k]);
        lemma_body_deps_record(insts.drop_last(), k, x);
    } else {
        lemma_concat_contains(opt_id(last.result_id), inst_uses(last), x);
    }
    lemma_concat_contains(body_deps(insts.drop_last()), tail, x);
}

proof fn lemma_function_edges_record(e: Map<u32, Seq<u32>>, fns: Seq<FunctionView>, k: int, x: u32)
    requires
        0 <= k < fns.len(),
        body_deps(fns[k].all_insts()).contains(x),
    ensures
        successors(function_edges(e, fns), function_id(fns[k])).contains(x),
    decreases fns.len(),
{
    let f = fns.last();
    let prev = function_edges(e, fns.drop_last());
    if k < fns.len() - 1 {
        assert(fns.drop_last()[k] == fns[k]);
        lemma_function_edges_record(e, fns.drop_last(), k, x);
    }
    lemma_add_deps_keeps(prev, function_id(f), body_deps(f.all_insts()), function_id(fns[k]), x);
}

/// A function depends, in the module's dependency graph, on everything its
/// defining instruction and its body define and use: each instruction's
/// result id, result type and id operands, stores and calls included.
pub proof fn lemma_functions_depend_on_their_instructions(m: ModuleView, k: int, i: InstructionView)
    requires
        0 <= k < m.functions.len(),
        m.functions[k].def is Some,
        m.functions[k].def->Some_0.result_id is Some,
        m.functions[k].def == Some(i) || m.functions[k].body.contains(i),
    ensures
        ({
            let deps = successors(module_edges(m), m.functions[k].def->Some_0.result_id->Some_0);
            &&& i.result_id is Some ==> deps.contains(i.result_id->Some_0)
            &&& i.result_type is Some ==> deps.contains(i.result_type->Some_0)
            &&& forall|j: int|
                0 <= j < i.operands.len() && (#[trigger] i.operands[j]) is IdRef ==> deps.contains(
                    i.operands[j]->IdRef_0,
                )
        }),
{
    let f = m.functions[k];
    let insts = f.all_insts();
    lemma_all_insts_contains(f, i);
    let n = choose|n: int| 0 <= n < insts.len() && insts[n] == i;
    lemma_uses_contain(i);
    let g = global_edges(module_insts(m));
    if i.result_id is Some {
        assert(opt_id(i.result_id)[0] == i.result_id->Some_0);
        lemma_body_deps_record(insts, n, i.result_id->Some_0);
        lemma_function_edges_record(g, m.functions, k, i.result_id->Some_0);
    }
    if i.result_type is Some {
        lemma_body_deps_record(insts, n, i.result_type->Some_0);
        lemma_function_edges_record(g, m.functions, k, i.result_type->Some_0);
    }
    assert forall|j: int| 0 <= j < i.operands.len() && (#[trigger] i.operands[j]) is IdRef implies successors(
        module_edges(m),
        function_id(f),
    ).contains(i.operands[j]->IdRef_0) by {
        lemma_body_deps_record(insts, n, i.operands[j]->IdRef_0);
        lemma_function_edges_record(g, m.functions, k, i.operands[j]->IdRef_0);
    }
}

} // verus!
