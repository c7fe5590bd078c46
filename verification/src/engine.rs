//! The decision graph evaluator: orders the decisions so that consumers run
//! after producers, evaluates each table, folds outputs into the fact
//! environment, and extracts the exported names.

use vstd::prelude::*;

use crate::errors::{EvalError, EvalErrorV};
use crate::facts::FactEnv;
use crate::matcher::string_eq;
use crate::table::{spec_eval_table, zip_outputs, zip_pairs, DecisionTable, ErrorPolicy};

verus! {

/// An ordered collection of decision tables with unique identifiers.
pub struct DecisionModel {
    pub decisions: Vec<DecisionTable>,
}

impl DecisionModel {
    /// The number of decisions.
    pub open spec fn n(&self) -> int {
        self.decisions@.len() as int
    }

    /// Every table is well-formed and the identifiers are unique.
    pub open spec fn wf(&self) -> bool {
        &&& forall|i: int| 0 <= i < self.n() ==> (#[trigger] self.decisions@[i]).wf()
        &&& forall|i: int, j: int|
            0 <= i < j < self.n() ==> (#[trigger] self.decisions@[i]).id@ != (
            #[trigger] self.decisions@[j]).id@
    }
}

/// The output columns of decision `j`.
pub open spec fn outputs_of(m: DecisionModel, j: int) -> Seq<Seq<char>> {
    m.decisions@[j].output_columns.deep_view()
}

/// The input columns of decision `d`.
pub open spec fn inputs_of(m: DecisionModel, d: int) -> Seq<Seq<char>> {
    m.decisions@[d].input_columns.deep_view()
}

/// Some decision outside `done` still produces column `c`.
pub open spec fn blocked(m: DecisionModel, done: Set<int>, c: Seq<char>) -> bool {
    exists|j: int| 0 <= j < m.n() && !done.contains(j) && (#[trigger] outputs_of(m, j)).contains(c)
}

/// A column is available once it is an initial fact or every decision that
/// produces it has been scheduled.
pub open spec fn col_available(
    m: DecisionModel,
    done: Set<int>,
    init: Set<Seq<char>>,
    c: Seq<char>,
) -> bool {
    init.contains(c) || !blocked(m, done, c)
}

/// A decision is ready once each of its input columns is available.
pub open spec fn decision_ready(m: DecisionModel, done: Set<int>, init: Set<Seq<char>>, d: int) -> bool {
    forall|k: int|
        0 <= k < inputs_of(m, d).len() ==> col_available(
            m,
            done,
            init,
            #[trigger] inputs_of(m, d)[k],
        )
}

/// A decision the scheduler may pick next.
pub open spec fn pickable(m: DecisionModel, done: Set<int>, init: Set<Seq<char>>, i: int) -> bool {
    !done.contains(i) && decision_ready(m, done, init, i)
}

/// The first pickable decision at or past position `i`, or -1.
pub open spec fn first_ready_from(
    m: DecisionModel,
    done: Set<int>,
    init: Set<Seq<char>>,
    i: int,
) -> int
    decreases m.n() - i when i <= m.n()
{
    if i >= m.n() {
        -1
    } else if pickable(m, done, init, i) {
        i
    } else {
        first_ready_from(m, done, init, i + 1)
    }
}

/// The schedule after at most `fuel` more picks.
pub open spec fn schedule_rec(m: DecisionModel, acc: Seq<int>, init: Set<Seq<char>>, fuel: nat) -> Seq<int>
    decreases fuel,
{
    if fuel == 0 {
        acc
    } else {
        let nx = first_ready_from(m, acc.to_set(), init, 0);
        if nx < 0 {
            acc
        } else {
            schedule_rec(m, acc.push(nx), init, (fuel - 1) as nat)
        }
    }
}

/// The evaluation order: repeatedly the earliest-declared unscheduled
/// decision whose inputs are available. It respects the declared order
/// whenever that order already satisfies the dependencies, and stops short
/// exactly when the rest cannot be ordered.
pub open spec fn spec_schedule(m: DecisionModel, init: Set<Seq<char>>) -> Seq<int> {
    schedule_rec(m, Seq::empty(), init, m.decisions@.len())
}

/// The identifiers of the decisions outside `done`, from position `i` on.
pub open spec fn remaining_ids_from(m: DecisionModel, done: Set<int>, i: int) -> Seq<Seq<char>>
    decreases m.n() - i when i <= m.n()
{
    if i >= m.n() {
        Seq::empty()
    } else if done.contains(i) {
        remaining_ids_from(m, done, i + 1)
    } else {
        seq![m.decisions@[i].id@] + remaining_ids_from(m, done, i + 1)
    }
}

/// The identifiers of the decisions a partial schedule could not place.
pub open spec fn remaining_ids(m: DecisionModel, order: Seq<int>) -> Seq<Seq<char>> {
    remaining_ids_from(m, order.to_set(), 0)
}

/// The integer values of a sequence of indices.
pub open spec fn idxs(s: Seq<usize>) -> Seq<int> {
    s.map_values(|u: usize| u as int)
}

proof fn lemma_push_to_set(s: Seq<int>, x: int)
    ensures
        s.push(x).to_set() == s.to_set().insert(x),
{
    assert forall|y: int| s.push(x).to_set().contains(y) implies s.to_set().insert(x).contains(
        y,
    ) by {
        let i = choose|i: int| 0 <= i < s.push(x).len() && s.push(x)[i] == y;
        if i < s.len() {
            assert(s[i] == y);
        }
    }
    assert forall|y: int| s.to_set().insert(x).contains(y) implies s.push(x).to_set().contains(
        y,
    ) by {
        if s.to_set().contains(y) {
            let i = choose|i: int| 0 <= i < s.len() && s[i] == y;
            assert(s.push(x)[i] == y);
        } else {
            assert(s.push(x)[s.len() as int] == y);
        }
    }
    assert(s.push(x).to_set() =~= s.to_set().insert(x));
}

proof fn lemma_first_ready_scan(m: DecisionModel, done: Set<int>, init: Set<Seq<char>>, s: int, i: int)
    requires
        0 <= s <= i <= m.n(),
        forall|j: int| s <= j < i ==> !pickable(m, done, init, j),
        i < m.n() ==> pickable(m, done, init, i),
    ensures
        first_ready_from(m, done, init, s) == (if i < m.n() {
            i
        } else {
            -1
        }),
    decreases i - s,
{
    if s < i {
        lemma_first_ready_scan(m, done, init, s + 1, i);
    }
}

/// Whether some string of `v` equals `s`.
fn contains_string(v: &Vec<String>, s: &String) -> (r: bool)
    ensures
        r == v.deep_view().contains(s@),
{
    let mut i: usize = 0;
    while i < v.len()
        invariant
            i <= v.len(),
            forall|j: int| 0 <= j < i ==> v.deep_view()[j] != s@,
        decreases v.len() - i,
    {
        proof {
            assert(v@[i as int]@ == v.deep_view()[i as int]);
        }
        if string_eq(&v[i], s) {
            return true;
        }
        i += 1;
    }
    false
}

/// Whether some unscheduled decision produces column `c`.
fn col_blocked(
    model: &DecisionModel,
    scheduled: &Vec<bool>,
    c: &String,
    Ghost(done): Ghost<Set<int>>,
) -> (r: bool)
    requires
        scheduled@.len() == model.decisions@.len(),
        forall|j: int| 0 <= j < scheduled@.len() ==> ((#[trigger] scheduled@[j]) <==> done.contains(j)),
    ensures
        r == blocked(*model, done, c@),
{
    let mut j: usize = 0;
    while j < model.decisions.len()
        invariant
            scheduled@.len() == model.decisions@.len(),
            forall|j2: int|
                0 <= j2 < scheduled@.len() ==> ((#[trigger] scheduled@[j2]) <==> done.contains(j2)),
            j <= model.decisions@.len(),
            forall|j2: int|
                0 <= j2 < j ==> !(!done.contains(j2) && (#[trigger] outputs_of(*model, j2)).contains(
                    c@,
                )),
        decreases model.decisions@.len() - j,
    {
        if !scheduled[j] && contains_string(&model.decisions[j].output_columns, c) {
            proof {
                assert(outputs_of(*model, j as int).contains(c@));
            }
            return true;
        }
        j += 1;
    }
    false
}

/// Whether decision `d` is ready given the scheduled set.
fn is_ready(
    model: &DecisionModel,
    scheduled: &Vec<bool>,
    initial: &FactEnv,
    d: usize,
    Ghost(done): Ghost<Set<int>>,
) -> (r: bool)
    requires
        initial.wf(),
        scheduled@.len() == model.decisions@.len(),
        d < model.decisions@.len(),
        forall|j: int| 0 <= j < scheduled@.len() ==> ((#[trigger] scheduled@[j]) <==> done.contains(j)),
    ensures
        r == decision_ready(*model, done, initial@.dom(), d as int),
{
    let cols = &model.decisions[d].input_columns;
    let ghost cv = inputs_of(*model, d as int);
    let mut k: usize = 0;
    while k < cols.len()
        invariant
            initial.wf(),
            scheduled@.len() == model.decisions@.len(),
            d < model.decisions@.len(),
            forall|j: int|
                0 <= j < scheduled@.len() ==> ((#[trigger] scheduled@[j]) <==> done.contains(j)),
            cols == &model.decisions@[d as int].input_columns,
            cv == inputs_of(*model, d as int),
            k <= cols@.len(),
            forall|k2: int|
                0 <= k2 < k ==> col_available(*model, done, initial@.dom(), #[trigger] cv[k2]),
        decreases cols@.len() - k,
    {
        let c = &cols[k];
        proof {
            assert(cols@[k as int]@ == cv[k as int]);
        }
        let in_init = initial.get(c).is_some();
        if !in_init {
            if col_blocked(model, scheduled, c, Ghost(done)) {
                proof {
                    assert(!col_available(*model, done, initial@.dom(), cv[k as int]));
                }
                return false;
            }
        }
        k += 1;
    }
    true
}

/// The earliest-declared pickable decision, if any.
fn find_ready(
    model: &DecisionModel,
    scheduled: &Vec<bool>,
    initial: &FactEnv,
    Ghost(done): Ghost<Set<int>>,
) -> (r: Option<usize>)
    requires
        initial.wf(),
        scheduled@.len() == model.decisions@.len(),
        forall|j: int| 0 <= j < scheduled@.len() ==> ((#[trigger] scheduled@[j]) <==> done.contains(j)),
    ensures
        match r {
            Some(i) => i < model.decisions@.len() && first_ready_from(
                *model,
                done,
                initial@.dom(),
                0,
            ) == i as int,
            None => first_ready_from(*model, done, initial@.dom(), 0) == -1,
        },
{
    let ghost init = initial@.dom();
    let mut i: usize = 0;
    while i < model.decisions.len()
        invariant
            initial.wf(),
            init == initial@.dom(),
            scheduled@.len() == model.decisions@.len(),
            forall|j: int|
                0 <= j < scheduled@.len() ==> ((#[trigger] scheduled@[j]) <==> done.contains(j)),
            i <= model.decisions@.len(),
            forall|j: int| 0 <= j < i ==> !pickable(*model, done, init, j),
        decreases model.decisions@.len() - i,
    {
        let not_done = !scheduled[i];
        if not_done && is_ready(model, scheduled, initial, i, Ghost(done)) {
            proof {
                lemma_first_ready_scan(*model, done, init, 0, i as int);
            }
            return Some(i);
        }
        i += 1;
    }
    proof {
        lemma_first_ready_scan(*model, done, init, 0, model.decisions@.len() as int);
    }
    None
}

/// Computes the evaluation order, or reports the decisions that cannot be
/// ordered as `CyclicDependency`.
pub fn schedule(model: &DecisionModel, initial: &FactEnv) -> (r: Result<Vec<usize>, EvalError>)
    requires
        model.wf(),
        initial.wf(),
    ensures
        match r {
            Ok(order) => idxs(order@) == spec_schedule(*model, initial@.dom()) && order@.len()
                == model.decisions@.len() && (forall|q: int|
                0 <= q < order@.len() ==> (#[trigger] order@[q]) < order@.len()),
            Err(e) => spec_schedule(*model, initial@.dom()).len() < model.decisions@.len() && e@
                == (EvalErrorV::CyclicDependency {
                ids: remaining_ids(*model, spec_schedule(*model, initial@.dom())),
            }),
        },
{
    let ghost init = initial@.dom();
    let n = model.decisions.len();
    let mut scheduled: Vec<bool> = Vec::new();
    let mut t: usize = 0;
    while t < n
        invariant
            t <= n,
            scheduled@.len() == t,
            forall|j: int| 0 <= j < t ==> !(#[trigger] scheduled@[j]),
        decreases n - t,
    {
        scheduled.push(false);
        t += 1;
    }
    let mut order: Vec<usize> = Vec::new();
    proof {
        assert(idxs(order@) =~= Seq::<int>::empty());
    }
    while order.len() < n
        invariant
            model.wf(),
            initial.wf(),
            init == initial@.dom(),
            n == model.decisions@.len(),
            scheduled@.len() == n,
            order@.len() <= n,
            forall|j: int|
                0 <= j < n ==> ((#[trigger] scheduled@[j]) <==> idxs(order@).to_set().contains(j)),
            forall|q: int| 0 <= q < order@.len() ==> (#[trigger] order@[q]) < n,
            schedule_rec(*model, idxs(order@), init, (n - order@.len()) as nat) == spec_schedule(
                *model,
                init,
            ),
        decreases n - order.len(),
    {
        let ghost done = idxs(order@).to_set();
        match find_ready(model, &scheduled, initial, Ghost(done)) {
            Some(i) => {
                let ghost acc0 = idxs(order@);
                order.push(i);
                scheduled[i] = true;
                proof {
                    assert(idxs(order@) =~= acc0.push(i as int));
                    lemma_push_to_set(acc0, i as int);
                }
            },
            None => {
                let mut ids: Vec<String> = Vec::new();
                let mut i: usize = 0;
                proof {
                    assert(ids.deep_view() + remaining_ids_from(*model, done, 0)
                        =~= remaining_ids_from(*model, done, 0));
                }
                while i < n
                    invariant
                        model.wf(),
                        n == model.decisions@.len(),
                        scheduled@.len() == n,
                        forall|j: int|
                            0 <= j < n ==> ((#[trigger] scheduled@[j]) <==> done.contains(j)),
                        i <= n,
                        ids.deep_view() + remaining_ids_from(*model, done, i as int)
                            == remaining_ids_from(*model, done, 0),
                    decreases n - i,
                {
                    let ghost ids0 = ids.deep_view();
                    if !scheduled[i] {
                        ids.push(model.decisions[i].id.clone());
                        proof {
                            assert(ids.deep_view() =~= ids0.push(
                                model.decisions@[i as int].id@,
                            ));
                            assert(ids.deep_view() + remaining_ids_from(*model, done, i as int + 1)
                                =~= ids0 + remaining_ids_from(*model, done, i as int));
                        }
                    }
                    i += 1;
                }
                proof {
                    assert(remaining_ids_from(*model, done, n as int) =~= Seq::<Seq<char>>::empty());
                    assert(ids.deep_view() =~= remaining_ids_from(*model, done, 0));
                }
                return Err(EvalError::CyclicDependency { ids });
            },
        }
    }
    Ok(order)
}

/// Binds each produced (name, value) in turn; the first name that already
/// exists is a `DuplicateOutput`.
pub open spec fn insert_outputs(
    env: Map<Seq<char>, Seq<char>>,
    outs: Seq<(Seq<char>, Seq<char>)>,
) -> Result<Map<Seq<char>, Seq<char>>, EvalErrorV>
    decreases outs.len(),
{
    if outs.len() == 0 {
        Ok(env)
    } else if env.contains_key(outs[0].0) {
        Err(EvalErrorV::DuplicateOutput { name: outs[0].0 })
    } else {
        insert_outputs(env.insert(outs[0].0, outs[0].1), outs.drop_first())
    }
}

/// One decision's produced pairs on the current facts, after its error
/// policy: a table-level error is answered with the default outputs under
/// `DefaultAndContinue`, and propagated otherwise.
pub open spec fn spec_step_outputs(t: DecisionTable, env: Map<Seq<char>, Seq<char>>) -> Result<
    Seq<(Seq<char>, Seq<char>)>,
    EvalErrorV,
> {
    match spec_eval_table(t, env) {
        Ok(outs) => Ok(outs),
        Err(e) => match (t.on_error, t.default_outputs) {
            (ErrorPolicy::DefaultAndContinue, Some(d)) => Ok(
                zip_outputs(t.output_columns.deep_view(), d.deep_view()),
            ),
            _ => Err(e),
        },
    }
}

/// Evaluates the scheduled decisions in order, folding each decision's
/// outputs into the fact environment.
pub open spec fn run_steps(
    m: DecisionModel,
    order: Seq<int>,
    env: Map<Seq<char>, Seq<char>>,
) -> Result<Map<Seq<char>, Seq<char>>, EvalErrorV>
    decreases order.len(),
{
    if order.len() == 0 {
        Ok(env)
    } else {
        match spec_step_outputs(m.decisions@[order[0]], env) {
            Ok(outs) => match insert_outputs(env, outs) {
                Ok(env2) => run_steps(m, order.drop_first(), env2),
                Err(e) => Err(e),
            },
            Err(e) => Err(e),
        }
    }
}

/// The position of the first export bound neither in the final environment
/// nor in the default registry, or -1.
pub open spec fn first_unresolved(
    env: Map<Seq<char>, Seq<char>>,
    registry: Map<Seq<char>, Seq<char>>,
    exports: Seq<Seq<char>>,
) -> int
    decreases exports.len(),
{
    if exports.len() == 0 {
        -1
    } else if !env.contains_key(exports[0]) && !registry.contains_key(exports[0]) {
        0
    } else {
        let r = first_unresolved(env, registry, exports.drop_first());
        if r < 0 {
            -1
        } else {
            r + 1
        }
    }
}

/// An export's value: what the run produced, else the registered default.
pub open spec fn export_value(
    env: Map<Seq<char>, Seq<char>>,
    registry: Map<Seq<char>, Seq<char>>,
    name: Seq<char>,
) -> Seq<char> {
    if env.contains_key(name) {
        env[name]
    } else {
        registry[name]
    }
}

/// The exported (name, value) pairs, in the callers' declared order.
pub open spec fn export_pairs(
    env: Map<Seq<char>, Seq<char>>,
    registry: Map<Seq<char>, Seq<char>>,
    exports: Seq<Seq<char>>,
) -> Seq<(Seq<char>, Seq<char>)> {
    Seq::new(exports.len(), |i: int| (exports[i], export_value(env, registry, exports[i])))
}

/// Extracts the exports; an export that neither the run nor the registry
/// covers is reported as a missing fact owned by no decision (an empty
/// decision identifier).
pub open spec fn resolve_exports(
    env: Map<Seq<char>, Seq<char>>,
    registry: Map<Seq<char>, Seq<char>>,
    exports: Seq<Seq<char>>,
) -> Result<Seq<(Seq<char>, Seq<char>)>, EvalErrorV> {
    let u = first_unresolved(env, registry, exports);
    if u >= 0 {
        Err(EvalErrorV::MissingFact { decision_id: Seq::empty(), column: exports[u] })
    } else {
        Ok(export_pairs(env, registry, exports))
    }
}

/// One whole evaluation: schedule, run the decisions in order, extract the
/// exports.
pub open spec fn spec_run(
    m: DecisionModel,
    init: Map<Seq<char>, Seq<char>>,
    exports: Seq<Seq<char>>,
    registry: Map<Seq<char>, Seq<char>>,
) -> Result<Seq<(Seq<char>, Seq<char>)>, EvalErrorV> {
    let order = spec_schedule(m, init.dom());
    if order.len() < m.decisions@.len() {
        Err(EvalErrorV::CyclicDependency { ids: remaining_ids(m, order) })
    } else {
        match run_steps(m, order, init) {
            Ok(envf) => resolve_exports(envf, registry, exports),
            Err(e) => Err(e),
        }
    }
}

proof fn lemma_first_unresolved_at(
    env: Map<Seq<char>, Seq<char>>,
    registry: Map<Seq<char>, Seq<char>>,
    exports: Seq<Seq<char>>,
    k: int,
)
    requires
        0 <= k < exports.len(),
        !env.contains_key(exports[k]) && !registry.contains_key(exports[k]),
        forall|j: int|
            0 <= j < k ==> env.contains_key(#[trigger] exports[j]) || registry.contains_key(
                exports[j],
            ),
    ensures
        first_unresolved(env, registry, exports) == k,
    decreases k,
{
    if k > 0 {
        assert(env.contains_key(exports[0]) || registry.contains_key(exports[0]));
        assert(exports.drop_first()[k - 1] == exports[k]);
        assert forall|j: int| 0 <= j < k - 1 implies env.contains_key(
            #[trigger] exports.drop_first()[j],
        ) || registry.contains_key(exports.drop_first()[j]) by {
            assert(exports.drop_first()[j] == exports[j + 1]);
        }
        lemma_first_unresolved_at(env, registry, exports.drop_first(), k - 1);
    }
}

proof fn lemma_first_unresolved_none(
    env: Map<Seq<char>, Seq<char>>,
    registry: Map<Seq<char>, Seq<char>>,
    exports: Seq<Seq<char>>,
)
    requires
        forall|j: int|
            0 <= j < exports.len() ==> env.contains_key(#[trigger] exports[j])
                || registry.contains_key(exports[j]),
    ensures
        first_unresolved(env, registry, exports) == -1,
    decreases exports.len(),
{
    if exports.len() > 0 {
        assert(env.contains_key(exports[0]) || registry.contains_key(exports[0]));
        assert forall|j: int| 0 <= j < exports.drop_first().len() implies env.contains_key(
            #[trigger] exports.drop_first()[j],
        ) || registry.contains_key(exports.drop_first()[j]) by {
            assert(exports.drop_first()[j] == exports[j + 1]);
        }
        lemma_first_unresolved_none(env, registry, exports.drop_first());
    }
}

/// Binds each produced pair in turn; mirrors `insert_outputs`.
fn insert_all(env: &mut FactEnv, outs: &Vec<(String, String)>) -> (r: Result<(), EvalError>)
    requires
        old(env).wf(),
    ensures
        final (env).wf(),
        match r {
            Ok(()) => insert_outputs(old(env)@, outs.deep_view()) == Ok::<
                Map<Seq<char>, Seq<char>>,
                EvalErrorV,
            >(final (env)@),
            Err(e) => insert_outputs(old(env)@, outs.deep_view()) == Err::<
                Map<Seq<char>, Seq<char>>,
                EvalErrorV,
            >(e@),
        },
{
    let ghost env0 = env@;
    let ghost outs_dv = outs.deep_view();
    proof {
        assert(outs_dv.skip(0) =~= outs_dv);
    }
    let mut q: usize = 0;
    while q < outs.len()
        invariant
            env.wf(),
            env0 == old(env)@,
            outs_dv == outs.deep_view(),
            q <= outs@.len(),
            insert_outputs(env0, outs_dv) == insert_outputs(env@, outs_dv.skip(q as int)),
        decreases outs.len() - q,
    {
        proof {
            assert(outs_dv.skip(q as int)[0] == outs_dv[q as int]);
            assert(outs@[q as int].0@ == outs_dv[q as int].0);
            assert(outs@[q as int].1@ == outs_dv[q as int].1);
        }
        let name = outs[q].0.clone();
        let value = outs[q].1.clone();
        match env.insert_once(name, value) {
            Ok(()) => {
                proof {
                    assert(outs_dv.skip(q as int).drop_first() =~= outs_dv.skip(q as int + 1));
                }
            },
            Err(e) => {
                return Err(e);
            },
        }
        q += 1;
    }
    proof {
        assert(outs_dv.skip(outs@.len() as int) =~= Seq::<(Seq<char>, Seq<char>)>::empty());
    }
    Ok(())
}

/// Runs the whole evaluation; the result is exactly `spec_run` over the
/// model, the initial facts, the exported names and the default registry.
pub fn run(
    model: &DecisionModel,
    initial_facts: FactEnv,
    exports: &Vec<String>,
    defaults: &FactEnv,
) -> (r: Result<Vec<(String, String)>, EvalError>)
    requires
        model.wf(),
        initial_facts.wf(),
        defaults.wf(),
    ensures
        match (r, spec_run(*model, initial_facts@, exports.deep_view(), defaults@)) {
            (Ok(v), Ok(sv)) => v.deep_view() == sv,
            (Err(e), Err(se)) => e@ == se,
            _ => false,
        },
{
    let ghost init_map = initial_facts@;
    let order = match schedule(model, &initial_facts) {
        Ok(o) => o,
        Err(e) => {
            return Err(e);
        },
    };
    let ghost sorder = idxs(order@);
    let mut env = initial_facts;
    proof {
        assert(sorder.skip(0) =~= sorder);
    }
    let mut p: usize = 0;
    while p < order.len()
        invariant
            model.wf(),
            defaults.wf(),
            env.wf(),
            init_map == initial_facts@,
            order@.len() == model.decisions@.len(),
            forall|q2: int| 0 <= q2 < order@.len() ==> (#[trigger] order@[q2]) < order@.len(),
            sorder == idxs(order@),
            sorder == spec_schedule(*model, init_map.dom()),
            p <= order@.len(),
            run_steps(*model, sorder, init_map) == run_steps(*model, sorder.skip(p as int), env@),
        decreases order.len() - p,
    {
        let d = order[p];
        proof {
            assert(sorder[p as int] == order@[p as int] as int);
            assert(sorder.skip(p as int)[0] == d as int);
        }
        let table = &model.decisions[d];
        let evaluated = table.evaluate(&env);
        let outs: Vec<(String, String)> = match evaluated {
            Ok(o) => o,
            Err(e) => {
                let use_defaults = matches!(table.on_error, ErrorPolicy::DefaultAndContinue)
                    && table.default_outputs.is_some();
                if use_defaults {
                    match &table.default_outputs {
                        Some(dd) => zip_pairs(&table.output_columns, dd),
                        None => vstd::pervasive::unreached(),
                    }
                } else {
                    proof {
                        assert(spec_step_outputs(model.decisions@[d as int], env@) == Err::<
                            Seq<(Seq<char>, Seq<char>)>,
                            EvalErrorV,
                        >(e@));
                        assert(run_steps(*model, sorder.skip(p as int), env@) == Err::<
                            Map<Seq<char>, Seq<char>>,
                            EvalErrorV,
                        >(e@));
                    }
                    return Err(e);
                }
            },
        };
        proof {
            assert(spec_step_outputs(model.decisions@[d as int], env@) == Ok::<
                Seq<(Seq<char>, Seq<char>)>,
                EvalErrorV,
            >(outs.deep_view()));
        }
        let ghost env_entry = env@;
        match insert_all(&mut env, &outs) {
            Ok(()) => {
                proof {
                    assert(sorder.skip(p as int).drop_first() =~= sorder.skip(p as int + 1));
                }
            },
            Err(e) => {
                proof {
                    assert(run_steps(*model, sorder.skip(p as int), env_entry) == Err::<
                        Map<Seq<char>, Seq<char>>,
                        EvalErrorV,
                    >(e@));
                }
                return Err(e);
            },
        }
        p += 1;
    }
    proof {
        assert(sorder.skip(sorder.len() as int) =~= Seq::<int>::empty());
    }
    let ghost envf = env@;
    let mut result: Vec<(String, String)> = Vec::new();
    let ghost exv = exports.deep_view();
    let mut x: usize = 0;
    while x < exports.len()
        invariant
            env.wf(),
            defaults.wf(),
            envf == env@,
            init_map == initial_facts@,
            exv == exports.deep_view(),
            sorder == spec_schedule(*model, init_map.dom()),
            sorder.len() == model.decisions@.len(),
            run_steps(*model, sorder, init_map) == Ok::<Map<Seq<char>, Seq<char>>, EvalErrorV>(
                envf,
            ),
            x <= exports@.len(),
            forall|y: int|
                0 <= y < x ==> envf.contains_key(#[trigger] exv[y]) || defaults@.contains_key(
                    exv[y],
                ),
            result.deep_view() == export_pairs(envf, defaults@, exv).take(x as int),
        decreases exports.len() - x,
    {
        proof {
            assert(exports@[x as int]@ == exv[x as int]);
        }
        let name = &exports[x];
        let ghost r0 = result.deep_view();
        let looked = env.get(name);
        match looked {
            Some(v) => {
                result.push((name.clone(), v.clone()));
            },
            None => {
                match defaults.get(name) {
                    Some(v) => {
                        result.push((name.clone(), v.clone()));
                    },
                    None => {
                        proof {
                            lemma_first_unresolved_at(envf, defaults@, exv, x as int);
                        }
                        return Err(
                            EvalError::MissingFact {
                                decision_id: String::new(),
                                column: name.clone(),
                            },
                        );
                    },
                }
            },
        }
        proof {
            assert(result.deep_view() =~= r0.push(
                (exv[x as int], export_value(envf, defaults@, exv[x as int])),
            ));
            assert(result.deep_view() =~= export_pairs(envf, defaults@, exv).take(x as int + 1));
        }
        x += 1;
    }
    proof {
        lemma_first_unresolved_none(envf, defaults@, exv);
        assert(result.deep_view() =~= export_pairs(envf, defaults@, exv));
    }
    Ok(result)
}

/// Determinism: the outcome of an evaluation is a function of the model, the
/// initial facts, the exported names and the default registry alone, so any
/// two results that `run`'s contract admits for the same arguments are equal.
pub proof fn lemma_run_deterministic(
    m: DecisionModel,
    init: Map<Seq<char>, Seq<char>>,
    exports: Seq<Seq<char>>,
    registry: Map<Seq<char>, Seq<char>>,
    r1: Result<Seq<(Seq<char>, Seq<char>)>, EvalErrorV>,
    r2: Result<Seq<(Seq<char>, Seq<char>)>, EvalErrorV>,
)
    requires
        r1 == spec_run(m, init, exports, registry),
        r2 == spec_run(m, init, exports, registry),
    ensures
        r1 == r2,
{
}

/// Each position of a schedule holds an in-range decision, not scheduled
/// before, that was ready with respect to the decisions before it.
pub open spec fn ordered_ok(m: DecisionModel, init: Set<Seq<char>>, s: Seq<int>) -> bool {
    forall|p: int|
        0 <= p < s.len() ==> {
            &&& 0 <= #[trigger] s[p] < m.n()
            &&& !s.take(p).to_set().contains(s[p])
            &&& decision_ready(m, s.take(p).to_set(), init, s[p])
        }
}

proof fn lemma_first_ready_props(m: DecisionModel, done: Set<int>, init: Set<Seq<char>>, i: int)
    requires
        0 <= i <= m.n(),
        first_ready_from(m, done, init, i) >= 0,
    ensures
        i <= first_ready_from(m, done, init, i) < m.n(),
        pickable(m, done, init, first_ready_from(m, done, init, i)),
    decreases m.n() - i,
{
    if i < m.n() && !pickable(m, done, init, i) {
        lemma_first_ready_props(m, done, init, i + 1);
    }
}

proof fn lemma_schedule_rec_ordered(
    m: DecisionModel,
    acc: Seq<int>,
    init: Set<Seq<char>>,
    fuel: nat,
)
    requires
        ordered_ok(m, init, acc),
    ensures
        ordered_ok(m, init, schedule_rec(m, acc, init, fuel)),
        acc.len() <= schedule_rec(m, acc, init, fuel).len(),
        schedule_rec(m, acc, init, fuel).take(acc.len() as int) == acc,
    decreases fuel,
{
    if fuel == 0 {
        assert(schedule_rec(m, acc, init, fuel).take(acc.len() as int) =~= acc);
    } else {
        let nx = first_ready_from(m, acc.to_set(), init, 0);
        if nx < 0 {
            assert(schedule_rec(m, acc, init, fuel).take(acc.len() as int) =~= acc);
        } else {
            lemma_first_ready_props(m, acc.to_set(), init, 0);
            let acc2 = acc.push(nx);
            assert forall|p: int| 0 <= p < acc2.len() implies {
                &&& 0 <= #[trigger] acc2[p] < m.n()
                &&& !acc2.take(p).to_set().contains(acc2[p])
                &&& decision_ready(m, acc2.take(p).to_set(), init, acc2[p])
            } by {
                if p < acc.len() {
                    assert(acc2.take(p) =~= acc.take(p));
                    assert(acc2[p] == acc[p]);
                } else {
                    assert(acc2.take(p) =~= acc);
                    assert(acc2[p] == nx);
                }
            }
            lemma_schedule_rec_ordered(m, acc2, init, (fuel - 1) as nat);
            let res = schedule_rec(m, acc, init, fuel);
            assert(res == schedule_rec(m, acc2, init, (fuel - 1) as nat));
            assert forall|p: int| 0 <= p < acc.len() implies res.take(acc.len() as int)[p]
                == acc[p] by {
                assert(res.take(acc2.len() as int)[p] == acc2[p]);
            }
            assert(res.take(acc.len() as int) =~= acc);
        }
    }
}

proof fn lemma_schedule_distinct(m: DecisionModel, init: Set<Seq<char>>)
    ensures
        ordered_ok(m, init, spec_schedule(m, init)),
        spec_schedule(m, init).no_duplicates(),
{
    let ord = spec_schedule(m, init);
    assert(ordered_ok(m, init, Seq::<int>::empty()));
    lemma_schedule_rec_ordered(m, Seq::empty(), init, m.decisions@.len());
    assert forall|p: int, q: int| 0 <= p < q < ord.len() implies ord[p] != ord[q] by {
        assert(ord.take(q)[p] == ord[p]);
        if ord[p] == ord[q] {
            assert(ord.take(q).contains(ord[q]));
        }
    }
}

proof fn lemma_complete_contains(m: DecisionModel, init: Set<Seq<char>>, d: int)
    requires
        spec_schedule(m, init).len() == m.n(),
        0 <= d < m.n(),
    ensures
        spec_schedule(m, init).contains(d),
{
    broadcast use vstd::seq_lib::seq_to_set_is_finite;

    let ord = spec_schedule(m, init);
    lemma_schedule_distinct(m, init);
    if !ord.contains(d) {
        let s = ord.to_set();
        ord.unique_seq_to_set();
        let r = vstd::set_lib::set_int_range(0, m.n());
        vstd::set_lib::lemma_int_range(0, m.n());
        let rd = r.remove(d);
        assert forall|x: int| s.contains(x) implies rd.contains(x) by {
            assert(ord.contains(x));
            let p = choose|p: int| 0 <= p < ord.len() && ord[p] == x;
            assert(0 <= x < m.n());
        }
        assert(s.subset_of(rd));
        vstd::set::axiom_set_remove_len(r, d);
        vstd::set_lib::lemma_len_subset(s, rd);
        assert(false);
    }
}

/// Dependency ordering: in a completed schedule, a decision whose input
/// column another decision produces (and that is no initial fact) stands
/// strictly after that producer, whatever the declaration order was.
pub proof fn lemma_dependency_ordering(
    m: DecisionModel,
    init: Set<Seq<char>>,
    a: int,
    b: int,
    c: Seq<char>,
)
    requires
        0 <= a < m.n(),
        0 <= b < m.n(),
        outputs_of(m, a).contains(c),
        inputs_of(m, b).contains(c),
        !init.contains(c),
        spec_schedule(m, init).len() == m.n(),
    ensures
        ({
            let ord = spec_schedule(m, init);
            &&& 0 <= ord.index_of(a) < m.n()
            &&& 0 <= ord.index_of(b) < m.n()
            &&& ord[ord.index_of(a)] == a
            &&& ord[ord.index_of(b)] == b
            &&& ord.index_of(a) < ord.index_of(b)
        }),
{
    let ord = spec_schedule(m, init);
    lemma_schedule_distinct(m, init);
    lemma_complete_contains(m, init, a);
    lemma_complete_contains(m, init, b);
    let ia = ord.index_of(a);
    let ib = ord.index_of(b);
    assert(0 <= ia < ord.len() && ord[ia] == a);
    assert(0 <= ib < ord.len() && ord[ib] == b);
    let done = ord.take(ib).to_set();
    assert(decision_ready(m, done, init, b));
    let k = choose|k: int| 0 <= k < inputs_of(m, b).len() && inputs_of(m, b)[k] == c;
    assert(col_available(m, done, init, inputs_of(m, b)[k]));
    if !done.contains(a) {
        assert(0 <= a < m.n() && !done.contains(a) && outputs_of(m, a).contains(c));
        assert(blocked(m, done, c));
        assert(false);
    }
    assert(ord.take(ib).contains(a));
    let p = choose|p: int| 0 <= p < ord.take(ib).len() && ord.take(ib)[p] == a;
    assert(ord[p] == a);
    if p != ia {
        assert(ord[p] == ord[ia]);
        assert(false);
    }
}

proof fn lemma_identity_prefix(m: DecisionModel, init: Set<Seq<char>>, k: int)
    requires
        forall|d: int|
            0 <= d < m.n() ==> decision_ready(
                m,
                vstd::set_lib::set_int_range(0, d),
                init,
                d,
            ),
        0 <= k <= m.n(),
    ensures
        schedule_rec(m, Seq::new(k as nat, |i: int| i), init, (m.n() - k) as nat) == Seq::new(
            m.n() as nat,
            |i: int| i,
        ),
    decreases m.n() - k,
{
    let acc = Seq::new(k as nat, |i: int| i);
    if k == m.n() {
    } else {
        assert(acc.to_set() =~= vstd::set_lib::set_int_range(0, k)) by {
            assert forall|y: int| acc.to_set().contains(y) implies 0 <= y < k by {
                let i = choose|i: int| 0 <= i < acc.len() && acc[i] == y;
            }
            assert forall|y: int| 0 <= y < k implies acc.to_set().contains(y) by {
                assert(acc[y] == y);
            }
        }
        assert forall|j: int| 0 <= j < k implies !pickable(m, acc.to_set(), init, j) by {
            assert(acc.to_set().contains(j));
        }
        assert(pickable(m, acc.to_set(), init, k));
        lemma_first_ready_scan(m, acc.to_set(), init, 0, k);
        assert(acc.push(k) =~= Seq::new((k + 1) as nat, |i: int| i));
        lemma_identity_prefix(m, init, k + 1);
    }
}

/// Stability: when the declared order already satisfies every dependency —
/// each decision is ready once exactly its predecessors have run — the
/// evaluation order is the declared order itself.
pub proof fn lemma_declared_order_is_kept(m: DecisionModel, init: Set<Seq<char>>)
    requires
        forall|d: int|
            0 <= d < m.n() ==> decision_ready(
                m,
                vstd::set_lib::set_int_range(0, d),
                init,
                d,
            ),
    ensures
        spec_schedule(m, init) == Seq::new(m.n() as nat, |i: int| i),
{
    assert(Seq::new(0, |i: int| i) =~= Seq::<int>::empty());
    lemma_identity_prefix(m, init, 0);
}

proof fn lemma_insert_outputs_ok(env: Map<Seq<char>, Seq<char>>, outs: Seq<(Seq<char>, Seq<char>)>)
    requires
        insert_outputs(env, outs) is Ok,
    ensures
        forall|k: int| 0 <= k < outs.len() ==> !env.contains_key((#[trigger] outs[k]).0),
        env.dom().subset_of(insert_outputs(env, outs)->Ok_0.dom()),
        forall|k: int|
            0 <= k < outs.len() ==> insert_outputs(env, outs)->Ok_0.dom().contains(
                (#[trigger] outs[k]).0,
            ),
    decreases outs.len(),
{
    if outs.len() > 0 {
        let env2 = env.insert(outs[0].0, outs[0].1);
        lemma_insert_outputs_ok(env2, outs.drop_first());
        assert forall|k: int| 0 <= k < outs.len() implies !env.contains_key(
            (#[trigger] outs[k]).0,
        ) by {
            if k > 0 {
                assert(outs.drop_first()[k - 1] == outs[k]);
                assert(!env2.contains_key(outs[k].0));
            }
        }
        assert forall|k: int| 0 <= k < outs.len() implies insert_outputs(
            env,
            outs,
        )->Ok_0.dom().contains((#[trigger] outs[k]).0) by {
            if k == 0 {
                assert(env2.dom().contains(outs[0].0));
            } else {
                assert(outs.drop_first()[k - 1] == outs[k]);
            }
        }
    }
}

proof fn lemma_step_output_names(t: DecisionTable, env: Map<Seq<char>, Seq<char>>)
    requires
        spec_step_outputs(t, env) is Ok,
    ensures
        ({
            let outs = spec_step_outputs(t, env)->Ok_0;
            &&& outs.len() == t.output_columns.deep_view().len()
            &&& forall|k: int|
                0 <= k < outs.len() ==> (#[trigger] outs[k]).0 == t.output_columns.deep_view()[k]
        }),
{
}

/// Append-only facts: when a run of the scheduled decisions succeeds, a
/// column that one of them produced was neither an initial fact nor an
/// output of any earlier-evaluated decision. A clash always surfaces as a
/// `DuplicateOutput` error, never as a silently overwritten value.
pub proof fn lemma_append_only(
    m: DecisionModel,
    order: Seq<int>,
    env: Map<Seq<char>, Seq<char>>,
    q: int,
    c: Seq<char>,
)
    requires
        run_steps(m, order, env) is Ok,
        0 <= q < order.len(),
        outputs_of(m, order[q]).contains(c),
    ensures
        !env.contains_key(c),
        forall|p: int| 0 <= p < q ==> !outputs_of(m, #[trigger] order[p]).contains(c),
    decreases order.len(),
{
    let t = m.decisions@[order[0]];
    let step = spec_step_outputs(t, env);
    assert(step is Ok);
    let outs = step->Ok_0;
    assert(insert_outputs(env, outs) is Ok);
    let env2 = insert_outputs(env, outs)->Ok_0;
    lemma_insert_outputs_ok(env, outs);
    lemma_step_output_names(t, env);
    if q == 0 {
        let k = choose|k: int|
            0 <= k < outputs_of(m, order[0]).len() && outputs_of(m, order[0])[k] == c;
        assert(outs[k].0 == c);
        assert(!env.contains_key(c));
    } else {
        lemma_append_only(m, order.drop_first(), env2, q - 1, c);
        assert(order.drop_first()[q - 1] == order[q]);
        assert(!env2.contains_key(c));
        assert(!env.contains_key(c));
        assert forall|p: int| 0 <= p < q implies !outputs_of(m, #[trigger] order[p]).contains(
            c,
        ) by {
            if p == 0 {
                if outputs_of(m, order[0]).contains(c) {
                    let k = choose|k: int|
                        0 <= k < outputs_of(m, order[0]).len() && outputs_of(m, order[0])[k] == c;
                    assert(outs[k].0 == c);
                    assert(env2.dom().contains(c));
                    assert(false);
                }
            } else {
                assert(order.drop_first()[p - 1] == order[p]);
            }
        }
    }
}

} // verus!
