use vstd::prelude::*;

verus! {

/// The model checking engine to run.
#[derive(Clone, Copy, PartialEq, Eq, Structural, Debug)]
pub enum Engine {
    IC3,
    Kind,
    BMC,
    Rlive,
    Portfolio,
}

/// Options of the IC3 engine.
#[derive(Clone, Copy, Debug)]
pub struct IC3Options {
    /// dynamic generalization
    pub dynamic: bool,
    /// no counterexample to generalization
    pub no_ctg: bool,
    /// maximal number of counterexamples to generalization
    pub ctg_max: usize,
    /// limit of recursive blocking for a counterexample to generalization
    pub ctg_limit: usize,
    /// counterexample to propagation
    pub ctp: bool,
    /// internal signals
    pub inn: bool,
    /// abstract constraints
    pub abs_cst: bool,
    /// no predicate property
    pub no_pred_prop: bool,
    /// full assignment of the last bad state
    pub full_bad: bool,
    /// abstract arrays
    pub abs_array: bool,
}

/// Options of the bounded model checking engine.
#[derive(Clone, Copy, Debug)]
pub struct BMCOptions {
    /// time limit of a single step
    pub time_limit: Option<u64>,
    /// use kissat, otherwise cadical
    pub bmc_kissat: bool,
}

/// Options of the k-induction engine.
#[derive(Clone, Copy, Debug)]
pub struct KindOptions {
    /// use kissat, otherwise cadical
    pub kind_kissat: bool,
    /// simple path constraint
    pub simple_path: bool,
}

/// Options of preprocessing.
#[derive(Clone, Copy, Debug)]
pub struct PreprocessOptions {
    /// no preprocessing
    pub no_preproc: bool,
    /// sequential equivalence preprocessing
    pub sec: bool,
}

/// Options of the portfolio.
#[derive(Clone, Copy, Debug)]
pub struct PortfolioOptions {
    /// worker memory limit in GB
    pub wmem_limit: usize,
}

/// The configuration of a run: the engine, the model and its side files,
/// and the options of each engine.
#[derive(Debug)]
pub struct Config {
    pub engine: Engine,
    /// model file in aiger (.aig/.aag) or btor2 (.btor/.btor2) format
    pub model: String,
    /// model map file for aiger format
    pub model_map: Option<String>,
    /// certificate path
    pub certificate: Option<String>,
    /// relation file path
    pub relation_file: Option<String>,
    /// use symmetric cubes
    pub symmetry: bool,
    /// use equivalence predicates
    pub equiv_predicate: bool,
    /// use equal-initial-value predicates
    pub eqinit_predicate: bool,
    /// iterative predicate replacement (default is total replacement)
    pub iterative_predicate_replacement: bool,
    /// exhaustive predicate replacement (default is total replacement)
    pub exhaustive_predicate_replacement: bool,
    /// certify with certifaiger
    pub certify: bool,
    /// print a witness when the model is unsafe
    pub witness: bool,
    pub ic3: IC3Options,
    pub bmc: BMCOptions,
    pub kind: KindOptions,
    pub portfolio: PortfolioOptions,
    pub preproc: PreprocessOptions,
    /// start bound
    pub start: usize,
    /// max bound to check
    pub end: usize,
    /// step length
    pub step: u32,
    /// random seed
    pub rseed: u64,
    /// statistics on interrupt
    pub interrupt_statistic: bool,
}

} // verus!
