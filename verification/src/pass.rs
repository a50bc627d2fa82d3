//! The pass pipeline: an ordered list of function passes that is run over
//! every function of a module, with a validation of each function's graph
//! at the end.
use vstd::prelude::*;
use crate::builder::FunctionBuilder;
use crate::case_semantics::{cols_hold, end_block, end_env, run_tests, tree_depth, Outcome};
use crate::case_ssa::well_scoped;
use crate::compile_pattern::{
    block_kept, case_clauses, case_compiled, case_sites, compile_effect, compiled_as,
    is_case_site, left_for_room, CompilePatternPass,
};
use crate::ir::{FunctionIdent, Label, Value};
use crate::pattern::{first_match, Decision, Term};
use crate::function::{Function, Module};
use crate::naive_inline_closures::{inline_effect, Lambda, NaiveInlineClosuresPass};
use crate::simplify_cfg::{simplify_effect, SimplifyCfgPass};
use crate::validate::ValidationError;

verus! {

/// A transformation of one function's graph. A pass reaches the graph
/// through the builder only, and so keeps what the builder keeps.
pub trait FunctionPass {
    /// What the pass makes of a graph: `g` is a graph that the pass may
    /// leave where it was handed `f`. A pass that does not say leaves any
    /// graph.
    open spec fn effect(&self, f: Function, g: Function) -> bool {
        true
    }

    /// Runs the pass over the function in the builder. What the pass makes
    /// of a graph does not change by running it.
    fn run_function_pass(&mut self, b: &mut FunctionBuilder)
        requires
            old(b)@.inv(),
        ensures
            final(b)@.inv(),
            old(self).effect(old(b)@, final(b)@),
            forall|f: Function, g: Function| #[trigger] final(self).effect(f, g) == old(self).effect(f, g),
    ;
}

/// A pass as the pipeline holds it: the pass itself, under a type of which
/// it is known that it makes of a graph what the pass makes of it.
struct Held<P> {
    pass: P,
}

impl<P: FunctionPass> FunctionPass for Held<P> {
    closed spec fn effect(&self, f: Function, g: Function) -> bool {
        self.pass.effect(f, g)
    }

    fn run_function_pass(&mut self, b: &mut FunctionBuilder) {
        self.pass.run_function_pass(b);
    }
}

/// A pass of the pipeline.
enum PassType {
    Function(Box<dyn FunctionPass>),
}

impl PassType {
    /// What the pass makes of a graph.
    spec fn effect(&self, f: Function, g: Function) -> bool {
        match self {
            PassType::Function(p) => p.effect(f, g),
        }
    }
}

/// Boxes a function pass as a pass of the pipeline.
fn boxed_pass<P: FunctionPass + 'static>(pass: P) -> (r: PassType)
    ensures
        forall|f: Function, g: Function| #[trigger] r.effect(f, g) == pass.effect(f, g),
{
    PassType::Function(Box::new(Held { pass }))
}

/// The function whose graph broke an invariant, and the invariant.
#[derive(Debug, Clone, Copy, PartialEq, Eq, Structural, Hash)]
pub struct PipelineError {
    /// The position of the function in the module.
    pub function: usize,
    pub error: ValidationError,
}

/// The pipeline: an ordered list of function passes.
pub struct PassManager {
    passes: Vec<PassType>,
}

/// What a run of the pipeline makes of one function: `g` is valid and the
/// result is `Ok`, or the result is the first invariant that `g` breaks.
/// A graph that cannot be handed to the passes is left as it is.
pub open spec fn function_run(f: Function, g: Function, r: Result<(), ValidationError>) -> bool {
    &&& r == g.verdict()
    &&& r is Ok <==> g.valid()
    &&& !f.inv() ==> g == f
}

impl PassManager {
    /// The number of passes in the pipeline.
    pub closed spec fn len(&self) -> nat {
        self.passes@.len()
    }

    /// What the pass at position `i` of the pipeline makes of a graph.
    pub closed spec fn pass_effect(&self, i: int, f: Function, g: Function) -> bool {
        self.passes@[i].effect(f, g)
    }

    /// What the first `n` passes, run in order, make of a graph: each is
    /// handed the graph that the one before it left.
    pub open spec fn runs(&self, n: nat, f: Function, g: Function) -> bool
        decreases n,
    {
        if n == 0 {
            g == f
        } else {
            exists|m: Function| self.runs((n - 1) as nat, f, m) && #[trigger] self.pass_effect(n - 1, m, g)
        }
    }

    /// What the whole pipeline makes of a graph.
    pub open spec fn makes(&self, f: Function, g: Function) -> bool {
        self.runs(self.len(), f, g)
    }

    /// The two pipelines hold as many passes, and at each position passes
    /// that make the same of every graph.
    pub open spec fn same_passes(&self, other: PassManager) -> bool {
        &&& self.len() == other.len()
        &&& forall|i: int, f: Function, g: Function|
            #![trigger self.pass_effect(i, f, g)]
            #![trigger other.pass_effect(i, f, g)]
            0 <= i < self.len() ==> self.pass_effect(i, f, g) == other.pass_effect(i, f, g)
    }

    /// What a run of the pipeline makes of one function of a module: the
    /// name stays; a graph that holds what the builder keeps is handed to
    /// the passes in order, and still holds it afterwards; any other graph
    /// is left as it is.
    pub open spec fn ran(&self, before: (FunctionIdent, Function), after: (FunctionIdent, Function)) -> bool {
        &&& after.0 == before.0
        &&& before.1.inv() ==> after.1.inv() && self.makes(before.1, after.1)
        &&& !before.1.inv() ==> after.1 == before.1
    }

    /// Pipelines with the same passes make the same of every graph.
    pub proof fn lemma_same_passes_run_alike(&self, other: PassManager, n: nat, f: Function, g: Function)
        requires
            self.same_passes(other),
            n <= self.len(),
        ensures
            self.runs(n, f, g) == other.runs(n, f, g),
        decreases n,
    {
        if n > 0 {
            let k = (n - 1) as nat;
            assert forall|m: Function| self.runs(k, f, m) == other.runs(k, f, m) by {
                self.lemma_same_passes_run_alike(other, k, f, m);
            }
            if self.runs(n, f, g) {
                let m = choose|m: Function| self.runs(k, f, m) && #[trigger] self.pass_effect(n - 1, m, g);
                assert(other.runs(k, f, m) && other.pass_effect(n - 1, m, g));
            }
            if other.runs(n, f, g) {
                let m = choose|m: Function| other.runs(k, f, m) && #[trigger] other.pass_effect(n - 1, m, g);
                assert(self.runs(k, f, m) && self.pass_effect(n - 1, m, g));
            }
        }
    }

    /// An empty pipeline.
    pub fn new() -> (m: PassManager)
        ensures
            m.len() == 0,
    {
        PassManager { passes: Vec::new() }
    }

    /// Adds a pass at the end of the pipeline: the passes before it stay,
    /// and the last pass makes of a graph what `pass` makes of it.
    pub fn push_function_pass<P: FunctionPass + 'static>(&mut self, pass: P)
        ensures
            final(self).len() == old(self).len() + 1,
            forall|i: int, f: Function, g: Function| 0 <= i < old(self).len() ==> #[trigger] final(self).pass_effect(i, f, g) == old(self).pass_effect(i, f, g),
            forall|f: Function, g: Function| #[trigger] final(self).pass_effect(old(self).len() as int, f, g) == pass.effect(f, g),
    {
        self.passes.push(boxed_pass(pass));
    }

    /// The number of passes in the pipeline.
    pub fn pass_count(&self) -> (n: usize)
        ensures
            n == self.len(),
    {
        self.passes.len()
    }

    /// Runs the pass at position `k` of the pipeline over the function in
    /// the builder. The pipeline holds the same passes afterwards.
    pub fn run_pass(&mut self, k: usize, b: &mut FunctionBuilder)
        requires
            k < old(self).len(),
            old(b)@.inv(),
        ensures
            final(b)@.inv(),
            old(self).pass_effect(k as int, old(b)@, final(b)@),
            old(self).same_passes(*final(self)),
    {
        match &mut self.passes[k] {
            PassType::Function(p) => {
                p.run_function_pass(b);
            },
        }
    }

    /// The default pipeline over known closure bodies: pattern
    /// compilation, then closure inlining over the lambdas given.
    pub fn with_lambdas(lambdas: Vec<Lambda>) -> (m: PassManager)
        ensures
            m.len() == 2,
            forall|f: Function, g: Function| #[trigger] m.pass_effect(0, f, g) == compile_effect(f, g),
            forall|f: Function, g: Function| #[trigger] m.pass_effect(1, f, g) == inline_effect(lambdas@, f, g),
    {
        let mut man = PassManager::new();
        man.push_function_pass(CompilePatternPass::new());
        man.push_function_pass(NaiveInlineClosuresPass::with_lambdas(lambdas));
        man
    }

    /// Runs the passes, in order, over one function, and validates the
    /// graph that they leave: each pass is handed the graph that the one
    /// before it left. A graph that breaks what the builder keeps is not
    /// handed to the passes.
    pub fn run_function(&mut self, fun: Function) -> (r: (Function, Result<(), ValidationError>))
        ensures
            old(self).same_passes(*final(self)),
            function_run(fun, r.0, r.1),
            fun.inv() ==> r.0.inv() && old(self).makes(fun, r.0),
    {
        let before = fun.graph_validate_global();
        let broken = match before {
            Err(ValidationError::Arena) => true,
            Err(ValidationError::DanglingLabel) => true,
            Err(ValidationError::BackReference) => true,
            _ => false,
        };
        if broken {
            return (fun, before);
        }
        let mut b = FunctionBuilder::new(fun);
        let n = self.pass_count();
        let mut k: usize = 0;
        while k < n
            invariant
                k <= n,
                n == self.len(),
                old(self).same_passes(*self),
                old(self).runs(k as nat, fun, b@),
                b@.inv(),
            decreases n - k,
        {
            let ghost pre = b@;
            self.run_pass(k, &mut b);
            proof {
                let next = (k + 1) as nat;
                assert(old(self).runs((next - 1) as nat, fun, pre) && old(self).pass_effect(next - 1, pre, b@));
                assert(old(self).runs(next, fun, b@));
            }
            k += 1;
        }
        let out = b.finish();
        let after = out.graph_validate_global();
        (out, after)
    }

    /// Runs the pipeline over every function of the module, in module
    /// order: the passes in pipeline order, then a validation of the graph.
    /// The run stops at the first function whose graph breaks an
    /// invariant; the functions after it are not touched. With no pass in
    /// the pipeline the module stays as it is.
    pub fn run(&mut self, module: &mut Module) -> (r: Result<(), PipelineError>)
        ensures
            old(self).same_passes(*final(self)),
            final(module).functions@.len() == old(module).functions@.len(),
            old(self).len() == 0 ==> final(module).functions@ == old(module).functions@,
            old(self).len() == 0 ==> (r is Ok <==> forall|i: int| 0 <= i < old(module).functions@.len() ==> (#[trigger] old(module).functions@[i]).1.valid()),
            match r {
                Ok(()) => forall|i: int| 0 <= i < final(module).functions@.len() ==> {
                    &&& old(self).ran(old(module).functions@[i], #[trigger] final(module).functions@[i])
                    &&& final(module).functions@[i].1.valid()
                },
                Err(e) => {
                    &&& e.function < final(module).functions@.len()
                    &&& forall|i: int| 0 <= i <= e.function ==> old(self).ran(old(module).functions@[i], #[trigger] final(module).functions@[i])
                    &&& forall|i: int| 0 <= i < e.function ==> (#[trigger] final(module).functions@[i]).1.valid()
                    &&& final(module).functions@[e.function as int].1.verdict() == Err::<(), ValidationError>(e.error)
                    &&& !final(module).functions@[e.function as int].1.valid()
                    &&& forall|i: int| e.function < i < final(module).functions@.len() ==> #[trigger] final(module).functions@[i] == old(module).functions@[i]
                },
            },
    {
        let n = module.functions.len();
        let mut i: usize = 0;
        while i < n
            invariant
                i <= n,
                n == old(module).functions@.len(),
                module.functions@.len() == n,
                old(self).same_passes(*self),
                forall|q: int| 0 <= q < i ==> old(self).ran(old(module).functions@[q], #[trigger] module.functions@[q]),
                forall|q: int| 0 <= q < i ==> (#[trigger] module.functions@[q]).1.valid(),
                forall|q: int| i <= q < n ==> #[trigger] module.functions@[q] == old(module).functions@[q],
                old(self).len() == 0 ==> forall|q: int| 0 <= q < i ==> #[trigger] module.functions@[q] == old(module).functions@[q],
            decreases n - i,
        {
            let ghost held = *self;
            let ghost given = module.functions@[i as int];
            let mut fun = Function::new();
            core::mem::swap(&mut fun, &mut module.functions[i].1);
            let (mut out, res) = self.run_function(fun);
            proof {
                let made = out;
                if given.1.inv() {
                    held.lemma_same_passes_run_alike(*old(self), held.len(), given.1, made);
                }
            }
            core::mem::swap(&mut out, &mut module.functions[i].1);
            proof {
                assert(old(self).ran(given, module.functions@[i as int]));
                if old(self).len() == 0 {
                    assert(module.functions@[i as int].1 == given.1);
                    assert(module.functions@[i as int] == given);
                }
            }
            match res {
                Err(e) => {
                    proof {
                        if old(self).len() == 0 {
                            assert(module.functions@ =~= old(module).functions@);
                        }
                    }
                    return Err(PipelineError { function: i, error: e });
                },
                Ok(()) => {},
            }
            i += 1;
        }
        proof {
            if old(self).len() == 0 {
                assert(module.functions@ =~= old(module).functions@);
            }
        }
        Ok(())
    }
}

/// Runs the passes of the default pipeline over one graph: pattern
/// compilation, then closure inlining with no closure body known. Every
/// case split of the graph is compiled, or, where the graph has no room
/// for the lowering of its tree, left as it stood. Returns the number of
/// case splits left, which are the case splits that the graph has
/// afterwards. The passes keep what the builder keeps, and on top of that
/// the arity of jumps, the completeness of phi nodes and the scoping of
/// values.
pub fn run_default_passes(b: &mut FunctionBuilder) -> (skipped: usize)
    requires
        old(b)@.inv(),
    ensures
        final(b)@.inv(),
        skipped == case_sites(final(b)@),
        forall|l: Label| #[trigger] is_case_site(old(b)@, l) ==> case_compiled(old(b)@, final(b)@, l) || left_for_room(old(b)@, final(b)@, l),
        forall|l: Label| #[trigger] is_case_site(final(b)@, l) ==> left_for_room(old(b)@, final(b)@, l),
        forall|l: Label| #[trigger] old(b)@.is_live(l) ==> block_kept(old(b)@, final(b)@, l),
        final(b)@.entry == old(b)@.entry,
        old(b)@.arity_ok() ==> final(b)@.arity_ok(),
        old(b)@.phis_complete() ==> final(b)@.phis_complete(),
        well_scoped(old(b)@) ==> well_scoped(final(b)@),
        skipped == 0 ==> forall|l: Label| !is_case_site(final(b)@, l),
        skipped == 0 ==> forall|l: Label| #[trigger] is_case_site(old(b)@, l) ==> case_compiled(old(b)@, final(b)@, l),
{
    let mut compile = CompilePatternPass::new();
    compile.run_function_pass(b);
    let mut inline = NaiveInlineClosuresPass::new();
    inline.run_function_pass(b);
    compile.skipped
}

/// Runs the default pipeline over one function and validates the graph it
/// leaves. A graph that holds what the builder keeps comes out with its
/// case splits compiled; with no closure body known, inlining leaves the
/// graph as compilation left it. A graph that was sound, and whose values
/// were well scoped, comes out sound: the validation finds nothing. On a
/// graph that was sound otherwise the passes can break nothing that the
/// validation looks for but the single definition of values.
pub fn run_default_pipeline(fun: Function) -> (r: (Function, Result<(), ValidationError>))
    ensures
        function_run(fun, r.0, r.1),
        fun.inv() ==> compile_effect(fun, r.0),
        fun.valid() ==> r.1 is Ok || r.1 == Err::<(), ValidationError>(ValidationError::MultipleDefinition),
        fun.valid() && well_scoped(fun) ==> r.1 is Ok && well_scoped(r.0),
{
    let before = fun.graph_validate_global();
    let broken = match before {
        Err(ValidationError::Arena) => true,
        Err(ValidationError::DanglingLabel) => true,
        Err(ValidationError::BackReference) => true,
        _ => false,
    };
    if broken {
        return (fun, before);
    }
    let mut b = FunctionBuilder::new(fun);
    let _ = run_default_passes(&mut b);
    let out = b.finish();
    let after = out.graph_validate_global();
    (out, after)
}

/// What the passes in their standard order make of a graph: compilation
/// makes `g1` of `f`, inlining over `table` makes `g2` of `g1`, and `g` is
/// what simplification makes of `g2` where it is asked for, else `g2`.
pub open spec fn standard_effect(table: Seq<Lambda>, with_simplify: bool, f: Function, g: Function) -> bool {
    exists|g1: Function, g2: Function|
        {
            &&& #[trigger] compile_effect(f, g1)
            &&& #[trigger] inline_effect(table, g1, g2)
            &&& if with_simplify {
                simplify_effect(g2, g)
            } else {
                g == g2
            }
        }
}

/// Runs the passes in their standard order over one function: pattern
/// compilation, closure inlining with the closure bodies given, and, where
/// asked for, simplification; then validates the graph that they leave. A
/// graph that was sound, and whose values were well scoped, comes out
/// sound: the validation finds nothing.
pub fn run_standard_pipeline(fun: Function, lambdas: Vec<Lambda>, with_simplify: bool) -> (r: (Function, Result<(), ValidationError>))
    ensures
        function_run(fun, r.0, r.1),
        fun.inv() ==> standard_effect(lambdas@, with_simplify, fun, r.0),
        fun.valid() && well_scoped(fun) ==> r.1 is Ok,
{
    let before = fun.graph_validate_global();
    let broken = match before {
        Err(ValidationError::Arena) => true,
        Err(ValidationError::DanglingLabel) => true,
        Err(ValidationError::BackReference) => true,
        _ => false,
    };
    if broken {
        return (fun, before);
    }
    let mut b = FunctionBuilder::new(fun);
    let mut compile = CompilePatternPass::new();
    compile.run_function_pass(&mut b);
    let ghost g1 = b@;
    let mut inline = NaiveInlineClosuresPass::with_lambdas(lambdas);
    inline.run_function_pass(&mut b);
    let ghost g2 = b@;
    if with_simplify {
        let mut simplify = SimplifyCfgPass::new();
        simplify.run_function_pass(&mut b);
    }
    proof {
        assert(compile_effect(fun, g1) && inline_effect(lambdas@, g1, g2));
    }
    let out = b.finish();
    let after = out.graph_validate_global();
    (out, after)
}

impl Default for PassManager {
    /// The default pipeline: pattern compilation, then closure inlining
    /// with no closure body known.
    fn default() -> (m: PassManager)
        ensures
            m.len() == 2,
            forall|f: Function, g: Function| #[trigger] m.pass_effect(0, f, g) == compile_effect(f, g),
            forall|f: Function, g: Function| #[trigger] m.pass_effect(1, f, g) == inline_effect(Seq::<Lambda>::empty(), f, g),
    {
        let mut man = PassManager::new();
        man.push_function_pass(CompilePatternPass::new());
        let inline = NaiveInlineClosuresPass::new();
        proof {
            assert(inline.lambdas@ =~= Seq::<Lambda>::empty());
        }
        man.push_function_pass(inline);
        man
    }
}

/// The default pipeline leaves a graph as pattern compilation leaves it:
/// with no closure body known, inlining changes nothing. So of a graph
/// that the default pipeline was handed, every case split is compiled, or
/// left where there was no room for it.
pub proof fn lemma_default_pipeline_compiles(m: PassManager, f: Function, g: Function)
    requires
        m.len() == 2,
        forall|f: Function, g: Function| #[trigger] m.pass_effect(0, f, g) == compile_effect(f, g),
        forall|f: Function, g: Function| #[trigger] m.pass_effect(1, f, g) == inline_effect(Seq::<Lambda>::empty(), f, g),
        m.makes(f, g),
    ensures
        compile_effect(f, g),
{
    let g1 = choose|g1: Function| m.runs(1, f, g1) && #[trigger] m.pass_effect(1, g1, g);
    let g0 = choose|g0: Function| m.runs(0, f, g0) && #[trigger] m.pass_effect(0, g0, g1);
    assert(m.runs(0, f, g0));
    assert(g0 == f);
    assert(inline_effect(Seq::<Lambda>::empty(), g1, g));
    assert(g == g1);
}

/// A pipeline of pattern compilation and closure inlining over `table`
/// makes of a graph what the two passes make of it in turn.
pub proof fn lemma_pipeline_with_lambdas(m: PassManager, table: Seq<Lambda>, f: Function, g: Function)
    requires
        m.len() == 2,
        forall|f: Function, g: Function| #[trigger] m.pass_effect(0, f, g) == compile_effect(f, g),
        forall|f: Function, g: Function| #[trigger] m.pass_effect(1, f, g) == inline_effect(table, f, g),
    ensures
        m.makes(f, g) ==> standard_effect(table, false, f, g),
{
    if m.makes(f, g) {
        let g1 = choose|g1: Function| m.runs(1, f, g1) && #[trigger] m.pass_effect(1, g1, g);
        let g0 = choose|g0: Function| m.runs(0, f, g0) && #[trigger] m.pass_effect(0, g0, g1);
        assert(m.runs(0, f, g0));
        assert(compile_effect(f, g1) && inline_effect(table, g1, g));
    }
}

/// A pipeline without passes leaves every graph as it is.
pub proof fn lemma_empty_pipeline(m: PassManager, f: Function, g: Function)
    requires
        m.len() == 0,
    ensures
        m.makes(f, g) <==> g == f,
{
}

/// A pipeline of one pass makes of a graph what that pass makes of it.
pub proof fn lemma_single_pass_pipeline(m: PassManager, f: Function, g: Function)
    requires
        m.len() == 1,
    ensures
        m.makes(f, g) <==> m.pass_effect(0, f, g),
{
    reveal_with_fuel(PassManager::runs, 2);
    if m.makes(f, g) {
        let g0 = choose|g0: Function| m.runs(0, f, g0) && #[trigger] m.pass_effect(0, g0, g);
        assert(g0 == f);
    }
    if m.pass_effect(0, f, g) {
        let n = m.len();
        assert(m.runs((n - 1) as nat, f, f) && m.pass_effect(n - 1, f, g));
    }
}

/// A pipeline of simplification alone, run a second time, leaves the graph
/// of the first run.
pub proof fn lemma_simplify_pipeline_idempotent(m: PassManager, f: Function, g: Function, h: Function)
    requires
        m.len() == 1,
        forall|x: Function, y: Function| #[trigger] m.pass_effect(0, x, y) == simplify_effect(x, y),
        m.makes(f, g),
        m.makes(g, h),
    ensures
        h == g,
{
    lemma_single_pass_pipeline(m, f, g);
    lemma_single_pass_pipeline(m, g, h);
    crate::simplify_cfg::lemma_simplify_idempotent(f, g, h);
}

/// What the default pipeline leaves of a case split runs as a scan of its
/// clauses selects: a case split of `f` that is no longer one in `g`
/// stands compiled there as a tree, and running `g` from the end of its
/// block arrives at the landing block of the first clause whose patterns
/// all match the terms that the scrutinees hold, and fails where no clause
/// matches.
pub proof fn lemma_default_pipeline_runs_as_scan(m: PassManager, f: Function, g: Function, l: Label)
    requires
        m.len() == 2,
        forall|f: Function, g: Function| #[trigger] m.pass_effect(0, f, g) == compile_effect(f, g),
        forall|f: Function, g: Function| #[trigger] m.pass_effect(1, f, g) == inline_effect(Seq::<Lambda>::empty(), f, g),
        m.makes(f, g),
        is_case_site(f, l),
        !is_case_site(g, l),
    ensures
        exists|d: Decision, lb: nat, vb: nat| #[trigger]
            compiled_as(f, g, l, d, lb, vb) && forall|env: Map<Value, Term>, vals: Seq<Term>, fuel: nat|
                #![trigger cols_hold(env, f.block(l).ops@.last().reads@, vals, vb), run_tests(g, l, env, fuel)]
                cols_hold(env, f.block(l).ops@.last().reads@, vals, vb) && fuel > tree_depth(d) ==> run_tests(g, l, env, fuel) == match first_match(case_clauses(f, l), vals) {
                    Some(i) => Outcome::Arrived {
                        block: Label((lb + i) as u32),
                        from: end_block(d, l, lb + case_clauses(f, l).len(), vals),
                        env: end_env(d, vb, env, vals),
                    },
                    None => Outcome::Failed,
                },
{
    lemma_default_pipeline_compiles(m, f, g);
    assert(case_compiled(f, g, l) || left_for_room(f, g, l));
    let (d, lb, vb) = choose|d: Decision, lb: nat, vb: nat| compiled_as(f, g, l, d, lb, vb);
    assert forall|env: Map<Value, Term>, vals: Seq<Term>, fuel: nat|
        #![trigger cols_hold(env, f.block(l).ops@.last().reads@, vals, vb), run_tests(g, l, env, fuel)]
        cols_hold(env, f.block(l).ops@.last().reads@, vals, vb) && fuel > tree_depth(d) implies run_tests(g, l, env, fuel) == match first_match(case_clauses(f, l), vals) {
        Some(i) => Outcome::Arrived {
            block: Label((lb + i) as u32),
            from: end_block(d, l, lb + case_clauses(f, l).len(), vals),
            env: end_env(d, vb, env, vals),
        },
        None => Outcome::Failed,
    } by {
        crate::case_semantics::lemma_compiled_case_runs_as_scan(f, g, l, d, lb, vb, env, vals, fuel);
    }
}

} // verus!
