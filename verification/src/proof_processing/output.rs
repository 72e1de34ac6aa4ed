use vstd::prelude::*;

use crate::conflict_resolving::atomic::IntAtomic;
use crate::seq_facts::lemma_map_values_push;

verus! {

/// An inference step of a proof: the premises imply the consequent (`None` is false).
#[derive(Clone, Debug, PartialEq, Eq)]
pub struct Inference {
    pub constraint_id: u32,
    pub premises: Vec<IntAtomic>,
    pub consequent: Option<IntAtomic>,
    /// The constraint that generated the inference.
    pub generated_by: Option<u32>,
    pub label: Option<String>,
}

/// A deduction step of a proof: the nogood `premises -> false`, supported by the inferences
/// with the ids in `sequence`, in that order.
#[derive(Clone, Debug, PartialEq, Eq)]
pub struct Deduction {
    pub constraint_id: u32,
    pub premises: Vec<IntAtomic>,
    pub sequence: Vec<u32>,
}

/// What a proof concludes.
#[derive(Clone, Debug, PartialEq, Eq)]
pub enum Conclusion {
    /// The model has no solution.
    Unsat,
    /// The atomic holds in every solution.
    DualBound(IntAtomic),
}

/// A step of a proof.
#[derive(Clone, Debug, PartialEq, Eq)]
pub enum Step {
    Inference(Inference),
    Deduction(Deduction),
    Conclusion(Conclusion),
}

/// A step of a proof, with the inference ids of a deduction as a sequence.
pub enum StepView {
    Inference(Inference),
    Deduction { constraint_id: u32, premises: Vec<IntAtomic>, sequence: Seq<u32> },
    Conclusion(Conclusion),
}

pub open spec fn step_view(step: Step) -> StepView {
    match step {
        Step::Inference(i) => StepView::Inference(i),
        Step::Deduction(d) => StepView::Deduction {
            constraint_id: d.constraint_id,
            premises: d.premises,
            sequence: d.sequence@,
        },
        Step::Conclusion(c) => StepView::Conclusion(c),
    }
}

/// One stage of a processed proof: the inferences that lead to a conflict once the
/// premises are assumed, and the deduction that they support.
#[derive(Clone, Debug)]
pub struct ProofStage {
    pub constraint_id: u32,
    pub inferences: Vec<Inference>,
    pub premises: Vec<IntAtomic>,
}

/// The steps of one stage: its inferences in order, then its deduction, which lists the
/// ids of those inferences.
pub open spec fn stage_steps(stage: ProofStage) -> Seq<StepView> {
    stage.inferences@.map_values(|i: Inference| StepView::Inference(i)).push(
        StepView::Deduction {
            constraint_id: stage.constraint_id,
            premises: stage.premises,
            sequence: stage.inferences@.map_values(|i: Inference| i.constraint_id),
        },
    )
}

/// The steps of the stages from index `m` on, last stage first.
pub open spec fn stages_steps_from(stages: Seq<ProofStage>, m: int) -> Seq<StepView>
    decreases stages.len() - m,
{
    if m < 0 || m >= stages.len() {
        Seq::empty()
    } else {
        stages_steps_from(stages, m + 1) + stage_steps(stages[m])
    }
}

/// The steps of the stages from index `m` on are the steps of those stages in reversed
/// order, one stage after another.
proof fn lemma_stages_steps_reversed(stages: Seq<ProofStage>, m: int)
    requires
        0 <= m <= stages.len(),
    ensures
        stages_steps_from(stages, m) == stages.subrange(m, stages.len() as int).reverse().map_values(
            |stage: ProofStage| stage_steps(stage),
        ).flatten_alt(),
    decreases stages.len() - m,
{
    let f = |stage: ProofStage| stage_steps(stage);
    let rest = stages.subrange(m, stages.len() as int).reverse().map_values(f);
    if m == stages.len() {
        assert(rest =~= Seq::<Seq<StepView>>::empty());
    } else {
        lemma_stages_steps_reversed(stages, m + 1);
        let later = stages.subrange(m + 1, stages.len() as int).reverse().map_values(f);
        assert(rest =~= later.push(stage_steps(stages[m])));
        assert(rest.drop_last() =~= later);
    }
}

/// The processed proof writes the collected stages in exactly reversed order, each as its
/// inferences followed by its deduction: the last collected stage comes first and the first
/// collected stage comes last, before the conclusion.
pub proof fn lemma_proof_is_stages_reversed(stages: Seq<ProofStage>)
    ensures
        stages_steps_from(stages, 0) == stages.reverse().map_values(
            |stage: ProofStage| stage_steps(stage),
        ).flatten(),
{
    lemma_stages_steps_reversed(stages, 0);
    assert(stages.subrange(0, stages.len() as int) =~= stages);
    stages.reverse().map_values(|stage: ProofStage| stage_steps(stage)).lemma_flatten_and_flatten_alt_are_equivalent();
}

/// The steps of a processed proof. The stages were collected while the proof was trimmed
/// backwards, so they are written last stage first; the conclusion ends the proof.
pub fn write_proof(output_proof: Vec<ProofStage>, conclusion: Conclusion) -> (steps: Vec<Step>)
    ensures
        steps@.map_values(|s: Step| step_view(s)) == stages_steps_from(output_proof@, 0).push(
            StepView::Conclusion(conclusion),
        ),
        steps@.map_values(|s: Step| step_view(s)) == output_proof@.reverse().map_values(
            |stage: ProofStage| stage_steps(stage),
        ).flatten().push(StepView::Conclusion(conclusion)),
{
    let ghost all = output_proof@;
    let mut stages = output_proof;
    let mut steps: Vec<Step> = Vec::new();
    while stages.len() > 0
        invariant
            stages@.len() <= all.len(),
            stages@ == all.subrange(0, stages@.len() as int),
            steps@.map_values(|s: Step| step_view(s)) == stages_steps_from(all, stages@.len() as int),
        decreases stages@.len(),
    {
        let ghost m = stages@.len() - 1;
        let stage = match stages.pop() {
            Some(s) => s,
            None => {
                return steps;
            },
        };
        proof {
            assert(stage == all[m]);
            assert(stages@ =~= all.subrange(0, m));
        }
        let ghost before = steps@.map_values(|s: Step| step_view(s));
        let ProofStage { constraint_id, inferences, premises } = stage;
        let ghost infs = inferences@;
        let mut rest = inferences;
        let mut sequence: Vec<u32> = Vec::new();
        while rest.len() > 0
            invariant
                rest@.len() <= infs.len(),
                rest@ == infs.subrange(infs.len() - rest@.len(), infs.len() as int),
                sequence@ == infs.subrange(0, infs.len() - rest@.len()).map_values(
                    |i: Inference| i.constraint_id,
                ),
                steps@.map_values(|s: Step| step_view(s)) == before + infs.subrange(
                    0,
                    infs.len() - rest@.len(),
                ).map_values(|i: Inference| StepView::Inference(i)),
            decreases rest@.len(),
        {
            let ghost k = infs.len() - rest@.len();
            let inference = rest.remove(0);
            proof {
                assert(inference == infs[k]);
                assert(rest@ =~= infs.subrange(k + 1, infs.len() as int));
            }
            let ghost old_steps = steps@;
            let ghost old_sequence = sequence@;
            sequence.push(inference.constraint_id);
            steps.push(Step::Inference(inference));
            proof {
                lemma_map_values_push(old_steps, Step::Inference(infs[k]), |s: Step| step_view(s));
                assert(infs.subrange(0, k + 1) =~= infs.subrange(0, k).push(infs[k]));
                lemma_map_values_push(infs.subrange(0, k), infs[k], |i: Inference| StepView::Inference(i));
                lemma_map_values_push(infs.subrange(0, k), infs[k], |i: Inference| i.constraint_id);
                assert(sequence@ =~= infs.subrange(0, k + 1).map_values(|i: Inference| i.constraint_id));
                assert(steps@.map_values(|s: Step| step_view(s)) =~= before + infs.subrange(
                    0,
                    k + 1,
                ).map_values(|i: Inference| StepView::Inference(i)));
            }
        }
        proof {
            assert(infs.subrange(0, infs.len() as int) =~= infs);
        }
        let ghost old_steps = steps@;
        let ghost sequence_view = sequence@;
        steps.push(Step::Deduction(Deduction { constraint_id, premises, sequence }));
        proof {
            lemma_map_values_push(
                old_steps,
                Step::Deduction(Deduction { constraint_id, premises, sequence }),
                |s: Step| step_view(s),
            );
            assert(steps@.map_values(|s: Step| step_view(s)) =~= before + stage_steps(all[m]));
            assert(stages_steps_from(all, m) == stages_steps_from(all, m + 1) + stage_steps(all[m]));
        }
    }
    steps.push(Step::Conclusion(conclusion));
    proof {
        lemma_proof_is_stages_reversed(all);
        assert(steps@.map_values(|s: Step| step_view(s)) =~= stages_steps_from(all, 0).push(
            StepView::Conclusion(conclusion),
        ));
    }
    steps
}

} // verus!
