use jotx::intent::{Intent, classify_intent};
use jotx::planner::{PlannerStep, plan_step};

#[test]
fn test_knowledge_intent() {
    assert_eq!(classify_intent("command to checkout git branch"), Intent::Knowledge);
    assert_eq!(classify_intent("how to merge branches"), Intent::Knowledge);
}

#[test]
fn test_retrieval_intent() {
    assert_eq!(classify_intent("ssh i used yesterday"), Intent::Retrieval);
    assert_eq!(classify_intent("show me build commands"), Intent::Retrieval);
}

#[test]
fn knowledge_query_goes_straight_to_the_model() {
    // A knowledge question is answered directly: no search, no cache step.
    assert_eq!(plan_step("how to merge branches"), PlannerStep::AnswerKnowledge);
}

#[test]
fn planner_step_tiers() {
    assert_eq!(plan_step(""), PlannerStep::Reject);
    assert_eq!(plan_step("   "), PlannerStep::Reject);
    assert_eq!(plan_step("make"), PlannerStep::DirectSearch);
    assert_eq!(plan_step("make used today"), PlannerStep::ConsultCache);
}
