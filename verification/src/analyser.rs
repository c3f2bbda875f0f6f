//! Analysis of compiled programs: analysers read a program and then report what
//! they found as diagnoses.
use vstd::prelude::*;

use crate::line_tags::{contains_str, lemma_string_set_push, push_str_chars, string_set};
use crate::program::{has_string_operand, opcode_of, string_operand, InstructionView, OpCode, Operand, Program};

verus! {

/// How severe a diagnosis is.
#[derive(Debug, Clone, Copy, PartialEq, Eq, Structural)]
pub enum DiagnosisSeverity {
    /// Something is wrong.
    Error,
    /// Something may be wrong.
    Warning,
    /// Something worth knowing.
    Note,
}

/// What an analyser found.
#[derive(Debug)]
pub struct Diagnosis {
    /// How severe it is.
    pub severity: DiagnosisSeverity,
    /// What it says.
    pub message: String,
}

impl Diagnosis {
    /// A diagnosis of `severity` that says `message`.
    pub fn new(severity: DiagnosisSeverity, message: String) -> (r: Self)
        ensures
            r.severity == severity,
            r.message@ == message@,
    {
        Diagnosis { severity, message }
    }
}

/// Analyses a compiled program: first reads it, then reports what it found.
pub trait CompiledProgramAnalyser {
    /// Reads what the analysis needs from `program`.
    fn diagnose(&mut self, program: &Program);

    /// Analyses what [`CompiledProgramAnalyser::diagnose`] read, and reports it.
    fn collect_diagnoses(&self) -> Vec<Diagnosis>;
}

/// The variable an instruction reads or writes: operand 0 of `PushVariable` and
/// `StoreVariable`, where it is a string.
pub open spec fn variable_of(ins: InstructionView) -> Option<Seq<char>> {
    if (opcode_of(ins.opcode) == Some(OpCode::PushVariable) || opcode_of(ins.opcode) == Some(OpCode::StoreVariable))
        && has_string_operand(ins, 0) {
        Some(string_operand(ins, 0))
    } else {
        None
    }
}

/// The variables the program reads or writes.
pub open spec fn program_variables(program: Program) -> Set<Seq<char>> {
    Set::new(
        |v: Seq<char>|
            exists|n: int, i: int|
                0 <= n < program.nodes@.len() && 0 <= i < program.nodes@[n].instructions@.len() && variable_of(
                    #[trigger] program.nodes@[n].instructions@[i]@,
                ) == Some(v),
    )
}

/// The message of the note about a variable the script uses.
pub open spec fn uses_variable_message(v: Seq<char>) -> Seq<char> {
    "Script uses variable "@ + v
}

/// Lists the variables a program reads and writes, each once.
#[derive(Debug)]
pub struct VariableLister {
    variables: Vec<String>,
}

/// Whether no two strings of `v` hold the same characters.
pub open spec fn distinct_strings(v: Seq<String>) -> bool {
    forall|a: int, b: int| 0 <= a < b < v.len() ==> (#[trigger] v[a])@ != (#[trigger] v[b])@
}

fn variable_name(ins: &crate::program::Instruction) -> (r: Option<String>)
    ensures
        match (r, variable_of(ins@)) {
            (Some(a), Some(b)) => a@ == b,
            (None, None) => true,
            _ => false,
        },
{
    let reads_or_writes = match OpCode::try_from_i32(ins.opcode) {
        Some(OpCode::PushVariable) => true,
        Some(OpCode::StoreVariable) => true,
        _ => false,
    };
    if !reads_or_writes || ins.operands.len() == 0 {
        return None;
    }
    match &ins.operands[0] {
        Operand::StringValue(s) => Some(s.clone()),
        _ => None,
    }
}

impl VariableLister {
    /// A lister that has read nothing.
    pub fn new() -> (r: Self)
        ensures
            r.names() == Set::<Seq<char>>::empty(),
            r.count() == 0,
    {
        let r = VariableLister { variables: Vec::new() };
        assert(r.names() =~= Set::<Seq<char>>::empty());
        r
    }

    /// The variables read so far.
    pub closed spec fn names(&self) -> Set<Seq<char>> {
        string_set(self.variables@)
    }

    /// The number of variables read so far.
    pub closed spec fn count(&self) -> nat {
        self.variables@.len()
    }

    /// The variables read so far, in the order they were first met.
    pub closed spec fn listed(&self) -> Seq<Seq<char>> {
        self.variables@.map_values(|s: String| s@)
    }

    #[verifier::type_invariant]
    spec fn lists_each_once(self) -> bool {
        distinct_strings(self.variables@)
    }

    fn add(&mut self, name: String)
        ensures
            final(self).names() == old(self).names().insert(name@),
    {
        proof {
            use_type_invariant(&*self);
        }
        let mut vars: Vec<String> = Vec::new();
        std::mem::swap(&mut vars, &mut self.variables);
        if !contains_str(&vars, name.as_str()) {
            proof {
                lemma_string_set_push(vars@, name);
            }
            vars.push(name);
        } else {
            assert(string_set(vars@).insert(name@) =~= string_set(vars@));
        }
        self.variables = vars;
    }
}

impl CompiledProgramAnalyser for VariableLister {
    fn diagnose(&mut self, program: &Program)
        ensures
            final(self).names() == old(self).names().union(program_variables(*program)),
    {
        let ghost start = self.names();
        let mut n: usize = 0;
        while n < program.nodes.len()
            invariant
                n <= program.nodes@.len(),
                forall|v: Seq<char>| start.contains(v) ==> #[trigger] self.names().contains(v),
                forall|v: Seq<char>|
                    #[trigger] self.names().contains(v) ==> start.contains(v) || program_variables(*program).contains(v),
                forall|m: int, i: int|
                    0 <= m < n && 0 <= i < program.nodes@[m].instructions@.len() ==> (variable_of(
                        #[trigger] program.nodes@[m].instructions@[i]@,
                    ) matches Some(v) ==> self.names().contains(v)),
            decreases program.nodes@.len() - n,
        {
            let node = &program.nodes[n];
            let mut i: usize = 0;
            while i < node.instructions.len()
                invariant
                    n < program.nodes@.len(),
                    *node == program.nodes@[n as int],
                    i <= node.instructions@.len(),
                        forall|v: Seq<char>| start.contains(v) ==> #[trigger] self.names().contains(v),
                    forall|v: Seq<char>|
                        #[trigger] self.names().contains(v) ==> start.contains(v) || program_variables(
                            *program,
                        ).contains(v),
                    forall|m: int, j: int|
                        0 <= m < n && 0 <= j < program.nodes@[m].instructions@.len() ==> (variable_of(
                            #[trigger] program.nodes@[m].instructions@[j]@,
                        ) matches Some(v) ==> self.names().contains(v)),
                    forall|j: int|
                        0 <= j < i ==> (variable_of(#[trigger] node.instructions@[j]@) matches Some(v)
                            ==> self.names().contains(v)),
                decreases node.instructions@.len() - i,
            {
                match variable_name(&node.instructions[i]) {
                    Some(name) => {
                        proof {
                            assert(program.nodes@[n as int].instructions@[i as int] == node.instructions@[i as int]);
                            assert(program_variables(*program).contains(name@));
                        }
                        self.add(name);
                    },
                    None => {},
                }
                i = i + 1;
            }
            n = n + 1;
        }
        assert(self.names() =~= start.union(program_variables(*program))) by {
            assert forall|v: Seq<char>| #[trigger] program_variables(*program).contains(v) implies self.names().contains(
                v,
            ) by {
                let (m, i) = choose|m: int, i: int|
                    0 <= m < program.nodes@.len() && 0 <= i < program.nodes@[m].instructions@.len() && variable_of(
                        #[trigger] program.nodes@[m].instructions@[i]@,
                    ) == Some(v);
                assert(variable_of(program.nodes@[m].instructions@[i]@) matches Some(w) ==> self.names().contains(w));
            }
        }
    }

    fn collect_diagnoses(&self) -> (r: Vec<Diagnosis>)
        ensures
            r@.len() == self.count(),
            forall|i: int|
                0 <= i < r@.len() ==> (#[trigger] r@[i]).severity == DiagnosisSeverity::Note && r@[i].message@
                    == uses_variable_message(self.listed()[i]),
            self.listed().len() == self.count(),
            self.listed().to_set() == self.names(),
            self.listed().no_duplicates(),
    {
        proof {
            use_type_invariant(self);
            assert(self.listed().to_set() =~= self.names()) by {
                assert forall|k: Seq<char>| #[trigger] self.listed().to_set().contains(k) implies self.names().contains(
                    k,
                ) by {
                    let i = choose|i: int| 0 <= i < self.listed().len() && self.listed()[i] == k;
                    assert(self.variables@[i]@ == k);
                }
                assert forall|k: Seq<char>| #[trigger] self.names().contains(k) implies self.listed().to_set().contains(
                    k,
                ) by {
                    let i = choose|i: int| 0 <= i < self.variables@.len() && (#[trigger] self.variables@[i])@ == k;
                    assert(self.listed()[i] == k);
                }
            }
        }
        let mut out: Vec<Diagnosis> = Vec::new();
        let mut i: usize = 0;
        while i < self.variables.len()
            invariant
                i <= self.variables@.len(),
                out@.len() == i,
                forall|j: int|
                    0 <= j < i ==> (#[trigger] out@[j]).severity == DiagnosisSeverity::Note && out@[j].message@
                        == uses_variable_message(self.variables@[j]@),
            decreases self.variables@.len() - i,
        {
            let mut m = String::from_str("Script uses variable ");
            push_str_chars(&mut m, self.variables[i].as_str());
            proof {
                reveal_strlit("Script uses variable ");
            }
            out.push(Diagnosis::new(DiagnosisSeverity::Note, m));
            i = i + 1;
        }
        out
    }
}

} // verus!
