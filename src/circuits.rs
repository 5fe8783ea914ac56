use vstd::prelude::*;

verus! {

/// Flag that marks a son index as naming a constant.
pub const CONSTANT_FLAG: u32 = 0x8000_0000;

/// A gate of the variable-length format: an opcode and the indices of its sons.
#[derive(Clone, Debug)]
pub struct Gate {
    pub opcode: u32,
    pub sons: Vec<u32>,
}

impl Gate {
    /// The opcode followed by the sons.
    pub fn flatten(&self) -> (r: Vec<u32>)
        ensures
            r@ == seq![self.opcode] + self.sons@,
    {
        let mut res: Vec<u32> = Vec::new();
        res.push(self.opcode);
        let mut rest = crate::util::copy_slice(self.sons.as_slice());
        res.append(&mut rest);
        assert(res@ =~= seq![self.opcode] + self.sons@);
        res
    }

    /// A placeholder gate: the largest opcode and no sons.
    pub fn dummy() -> (r: Gate)
        ensures
            r.opcode == u32::MAX,
            r.sons@.len() == 0,
    {
        Gate { opcode: u32::MAX, sons: Vec::new() }
    }

    /// Whether this gate is a placeholder.
    pub fn is_dummy(&self) -> (r: bool)
        ensures
            r == (self.opcode == u32::MAX),
    {
        self.opcode == u32::MAX
    }
}

/// The constant index of array position `array_idx`.
pub fn array_idx_to_constant_idx(array_idx: u32) -> (r: u32)
    ensures
        r == CONSTANT_FLAG | array_idx,
{
    CONSTANT_FLAG | array_idx
}

/// The array position of a constant index.
pub fn constant_idx_to_array_idx(constant_idx: u32) -> (r: u32)
    ensures
        r == CONSTANT_FLAG ^ constant_idx,
{
    CONSTANT_FLAG ^ constant_idx
}

/// Whether a son index names a constant.
pub fn is_constant_idx(idx: u32) -> (r: bool)
    ensures
        r == (CONSTANT_FLAG & idx != 0),
{
    CONSTANT_FLAG & idx != 0
}

/// A circuit of variable-length gates with constants, some still to be bound.
#[derive(Clone, Debug)]
pub struct CompiledCircuit {
    pub circuit: Vec<Gate>,
    pub constants: Vec<Option<Vec<u8>>>,
    pub version: u32,
    pub block_size: u32,
    pub num_blocks: u32,
}

/// A circuit of variable-length gates with every constant bound.
#[derive(Clone, Debug)]
pub struct CompiledCircuitWithConstants {
    pub circuit: Vec<Gate>,
    pub constants: Vec<Vec<u8>>,
    pub version: u32,
    pub block_size: u32,
}

/// Two gate sequences hold the same opcodes and sons.
pub open spec fn same_gates(a: Seq<Gate>, b: Seq<Gate>) -> bool {
    &&& a.len() == b.len()
    &&& forall|i: int| 0 <= i < a.len() ==> (#[trigger] a[i]).opcode == b[i].opcode && a[i].sons@ == b[i].sons@
}

/// A copy of a gate sequence.
fn copy_gates(gates: &Vec<Gate>) -> (r: Vec<Gate>)
    ensures
        same_gates(r@, gates@),
{
    let mut out: Vec<Gate> = Vec::with_capacity(gates.len());
    let mut i: usize = 0;
    while i < gates.len()
        invariant
            i <= gates@.len(),
            out@.len() == i,
            forall|k: int| 0 <= k < i ==> (#[trigger] out@[k]).opcode == gates@[k].opcode && out@[k].sons@ == gates@[k].sons@,
        decreases gates@.len() - i,
    {
        let g = Gate { opcode: gates[i].opcode, sons: crate::util::copy_slice(gates[i].sons.as_slice()) };
        out.push(g);
        i = i + 1;
    }
    out
}

/// The constants with each missing one taken, in order, from `supplied`.
pub open spec fn fill_constants(cs: Seq<Option<Vec<u8>>>, supplied: Seq<Seq<u8>>) -> Seq<Seq<u8>>
    decreases cs.len(),
{
    if cs.len() == 0 {
        Seq::empty()
    } else {
        match cs[0] {
            Some(v) => seq![v@] + fill_constants(cs.drop_first(), supplied),
            None => seq![supplied[0]] + fill_constants(cs.drop_first(), supplied.drop_first()),
        }
    }
}

/// How many constants are missing.
pub open spec fn missing_count(cs: Seq<Option<Vec<u8>>>) -> int
    decreases cs.len(),
{
    if cs.len() == 0 {
        0
    } else {
        (if cs[0] is None { 1int } else { 0int }) + missing_count(cs.drop_first())
    }
}

/// No count of missing constants is negative.
proof fn lemma_missing_count_nonneg(cs: Seq<Option<Vec<u8>>>)
    ensures
        missing_count(cs) >= 0,
    decreases cs.len(),
{
    if cs.len() > 0 {
        lemma_missing_count_nonneg(cs.drop_first());
    }
}

impl CompiledCircuit {
    /// The circuit with all constants replaced by `constants`, one for each slot.
    pub fn bind_constants(&self, constants: Vec<Vec<u8>>) -> (r: CompiledCircuitWithConstants)
        requires
            constants@.len() == self.constants@.len(),
        ensures
            same_gates(r.circuit@, self.circuit@),
            r.constants@ == constants@,
            r.version == self.version,
            r.block_size == self.block_size,
    {
        CompiledCircuitWithConstants {
            circuit: copy_gates(&self.circuit),
            constants,
            version: self.version,
            block_size: self.block_size,
        }
    }

    /// The circuit with each missing constant taken, in order, from `constants`.
    pub fn bind_missing_constants(&self, constants: Vec<Vec<u8>>) -> (r: CompiledCircuitWithConstants)
        requires
            missing_count(self.constants@) <= constants@.len(),
        ensures
            same_gates(r.circuit@, self.circuit@),
            crate::accumulator::views(r.constants@) == fill_constants(self.constants@, crate::accumulator::views(constants@)),
            r.version == self.version,
            r.block_size == self.block_size,
    {
        let ghost cs = self.constants@;
        let ghost sv = crate::accumulator::views(constants@);
        let mut all: Vec<Vec<u8>> = Vec::with_capacity(self.constants.len());
        let supplied_len = constants.len();
        let mut i: usize = 0;
        let mut t: usize = 0;
        proof {
            assert(cs.subrange(0, cs.len() as int) =~= cs);
            assert(sv.subrange(0, sv.len() as int) =~= sv);
            assert(crate::accumulator::views(all@) + fill_constants(cs, sv) =~= fill_constants(cs, sv));
        }
        while t < self.constants.len()
            invariant
                cs == self.constants@,
                sv == crate::accumulator::views(constants@),
                supplied_len == constants@.len(),
                t <= cs.len(),
                i <= constants@.len(),
                missing_count(cs.subrange(t as int, cs.len() as int)) <= constants@.len() - i,
                crate::accumulator::views(all@) + fill_constants(cs.subrange(t as int, cs.len() as int), sv.subrange(i as int, sv.len() as int))
                    == fill_constants(cs, sv),
            decreases cs.len() - t,
        {
            let ghost rest = cs.subrange(t as int, cs.len() as int);
            let ghost srest = sv.subrange(i as int, sv.len() as int);
            let ghost before = crate::accumulator::views(all@);
            proof {
                assert(rest.drop_first() =~= cs.subrange(t as int + 1, cs.len() as int));
                assert(rest[0] == self.constants@[t as int]);
                lemma_missing_count_nonneg(rest.drop_first());
            }
            match &self.constants[t] {
                Some(v) => {
                    all.push(crate::util::slice_to_vec(v.as_slice()));
                    proof {
                        assert(crate::accumulator::views(all@) =~= before.push(v@));
                    }
                },
                None => {
                    assert(i < constants@.len());
                    all.push(crate::util::slice_to_vec(constants[i].as_slice()));
                    proof {
                        assert(srest[0] == constants@[i as int]@);
                        assert(srest.drop_first() =~= sv.subrange(i as int + 1, sv.len() as int));
                        assert(crate::accumulator::views(all@) =~= before.push(constants@[i as int]@));
                    }
                    i = i + 1;
                },
            }
            t = t + 1;
            proof {
                assert(crate::accumulator::views(all@) + fill_constants(cs.subrange(t as int, cs.len() as int), sv.subrange(i as int, sv.len() as int))
                    =~= before + fill_constants(rest, srest));
            }
        }
        proof {
            assert(cs.subrange(t as int, cs.len() as int) =~= Seq::<Option<Vec<u8>>>::empty());
            assert(crate::accumulator::views(all@) =~= crate::accumulator::views(all@) + Seq::<Seq<u8>>::empty());
        }
        CompiledCircuitWithConstants {
            circuit: copy_gates(&self.circuit),
            constants: all,
            version: self.version,
            block_size: self.block_size,
        }
    }
}

/// The value a son index of the variable-length format names: an earlier value, or
/// a constant when the index carries the constant flag.
pub open spec fn legacy_son_value(s: u32, evaluated: Seq<Seq<u8>>, constants: Seq<Seq<u8>>) -> Seq<u8> {
    if CONSTANT_FLAG & s != 0 {
        constants[(CONSTANT_FLAG ^ s) as int]
    } else {
        evaluated[s as int]
    }
}

/// The son values of a gate of the variable-length format: earlier values for plain
/// indices, constants for flagged ones (flagged sons are skipped when there are no
/// constants).
pub open spec fn legacy_son_values(sons: Seq<u32>, evaluated: Seq<Seq<u8>>, constants: Seq<Seq<u8>>) -> Seq<Seq<u8>>
    decreases sons.len(),
{
    if sons.len() == 0 {
        Seq::empty()
    } else {
        let s = sons.last();
        let rest = legacy_son_values(sons.drop_last(), evaluated, constants);
        if CONSTANT_FLAG & s != 0 && constants.len() == 0 {
            rest
        } else {
            rest.push(legacy_son_value(s, evaluated, constants))
        }
    }
}

/// References to the values of the sons of `gate`.
pub fn get_evaluated_sons<'a>(gate: &Gate, evaluated_circuit: &'a Vec<Vec<u8>>, constants: &'a Vec<Vec<u8>>) -> (r: Vec<&'a Vec<u8>>)
    requires
        forall|k: int|
            0 <= k < gate.sons@.len() ==> {
                let s = #[trigger] gate.sons@[k];
                &&& CONSTANT_FLAG & s == 0 ==> (s as int) < evaluated_circuit@.len()
                &&& (CONSTANT_FLAG & s != 0 && constants@.len() > 0) ==> ((CONSTANT_FLAG ^ s) as int) < constants@.len()
            },
    ensures
        r@.map_values(|v: &Vec<u8>| v@) == legacy_son_values(
            gate.sons@,
            crate::accumulator::views(evaluated_circuit@),
            crate::accumulator::views(constants@),
        ),
{
    let ghost ev = crate::accumulator::views(evaluated_circuit@);
    let ghost cv = crate::accumulator::views(constants@);
    let mut sons: Vec<&'a Vec<u8>> = Vec::new();
    let mut k: usize = 0;
    while k < gate.sons.len()
        invariant
            ev == crate::accumulator::views(evaluated_circuit@),
            cv == crate::accumulator::views(constants@),
            k <= gate.sons@.len(),
            forall|t: int|
                0 <= t < gate.sons@.len() ==> {
                    let s = #[trigger] gate.sons@[t];
                    &&& CONSTANT_FLAG & s == 0 ==> (s as int) < evaluated_circuit@.len()
                    &&& (CONSTANT_FLAG & s != 0 && constants@.len() > 0) ==> ((CONSTANT_FLAG ^ s) as int) < constants@.len()
                },
            sons@.map_values(|v: &Vec<u8>| v@) == legacy_son_values(gate.sons@.subrange(0, k as int), ev, cv),
        decreases gate.sons@.len() - k,
    {
        let s = gate.sons[k];
        let ghost before = sons@.map_values(|v: &Vec<u8>| v@);
        proof {
            assert(gate.sons@.subrange(0, k as int + 1).drop_last() =~= gate.sons@.subrange(0, k as int));
            assert(gate.sons@.subrange(0, k as int + 1).last() == s);
        }
        if !is_constant_idx(s) {
            sons.push(&evaluated_circuit[s as usize]);
            proof {
                assert(sons@.map_values(|v: &Vec<u8>| v@) =~= before.push(ev[s as int]));
            }
        } else if constants.len() != 0 {
            let c = constant_idx_to_array_idx(s);
            sons.push(&constants[c as usize]);
            proof {
                assert(sons@.map_values(|v: &Vec<u8>| v@) =~= before.push(cv[c as int]));
            }
        }
        k = k + 1;
    }
    proof {
        assert(gate.sons@.subrange(0, gate.sons@.len() as int) =~= gate.sons@);
    }
    sons
}

} // verus!
