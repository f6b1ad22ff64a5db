//! The query planner's control flow: reject empty queries, answer knowledge
//! questions through the model, run single words straight through the
//! lexical path, and consult the fingerprint cache before falling back to
//! the model. The outside work (embedding, model call) happens between the
//! steps; this module decides and executes the search.
use vstd::prelude::*;

use vstd::string::StringSliceAdditionalSpecFns;

use crate::intent::{Intent, classify_intent, classify_intent_spec};
use crate::llm::LLMQueryParams;
use crate::search::{
    CANDIDATE_LIMIT, CandV, RESULT_LIMIT, dedup_by_content, keyword_search_with_params, plan_boost,
    plan_match, ranked_results, result_views, semantic_rows, semantic_search, sorted_by_sim,
    sorted_cands, SearchResultV,
};
use crate::store::Store;
use crate::text::{lower_bytes_spec, split_ws, word_count};
use crate::types::SearchResult;

verus! {

/// The default result display cap when the configured one is unusable.
pub const MAX_RESULTS: usize = 10;

/// A query's answer: a direct model answer, or the selected search result.
#[derive(Debug)]
pub enum AskResponse {
    Knowledge(String),
    SearchResults(Option<Vec<u8>>),
}

/// What the planner does next with a query.
#[derive(Debug, Clone, Copy, PartialEq, Eq, Structural)]
pub enum PlannerStep {
    /// The trimmed query is empty: an invalid-input error.
    Reject,
    /// A knowledge question: ask the model directly, touch no rows.
    AnswerKnowledge,
    /// A single word: run the direct lexical search, no model and no cache.
    DirectSearch,
    /// A multi-word retrieval: try the fingerprint cache, then the model.
    ConsultCache,
}

/// The planner's first decision on a query (see [`PlannerStep`]).
pub open spec fn planner_step_spec(q: Seq<u8>) -> PlannerStep {
    if split_ws(q).len() == 0 {
        PlannerStep::Reject
    } else if classify_intent_spec(q) == Intent::Knowledge {
        PlannerStep::AnswerKnowledge
    } else if split_ws(q).len() <= 1 {
        PlannerStep::DirectSearch
    } else {
        PlannerStep::ConsultCache
    }
}

/// Decide what to do with a query (see [`planner_step_spec`]).
pub fn plan_step(query: &str) -> (r: PlannerStep)
    ensures
        r == planner_step_spec(query.spec_bytes()),
{
    let n = word_count(query.as_bytes());
    if n == 0 {
        return PlannerStep::Reject;
    }
    match classify_intent(query) {
        Intent::Knowledge => PlannerStep::AnswerKnowledge,
        Intent::Retrieval => {
            if n <= 1 {
                PlannerStep::DirectSearch
            } else {
                PlannerStep::ConsultCache
            }
        },
    }
}

/// The result display cap: the configured value, or the default when the
/// configuration holds 0.
pub fn effective_max_results(configured: usize) -> (r: usize)
    ensures
        r == (if configured > 0 {
            configured
        } else {
            MAX_RESULTS as usize
        }),
{
    if configured > 0 {
        configured
    } else {
        MAX_RESULTS
    }
}

/// Execute a plan against the store: the dense path when the plan asks for
/// semantics (it needs the per-entry similarities of the query embedding,
/// and fails when the embedding service could not provide them), the
/// planned lexical path otherwise. On success the result is exactly what
/// the chosen executor returns: the dense ranking of the scored entries, or
/// the planned lexical ranking.
pub fn execute_search(
    store: &Store,
    params: &LLMQueryParams,
    directory: &str,
    now: u64,
    local_midnight: u64,
    sims_milli: Option<&Vec<u64>>,
    threshold_milli: u64,
) -> (r: Result<Vec<SearchResult>, ()>)
    requires
        match sims_milli {
            Some(s) => s@.len() == store.entries@.len(),
            None => true,
        },
    ensures
        r is Err <==> (params.use_semantic && sims_milli is None),
        match r {
            Ok(v) => if params.use_semantic {
                match sims_milli {
                    Some(sims) => exists|sorted: Seq<SearchResultV>|
                        {
                            &&& #[trigger] sorted.to_multiset() == semantic_rows(
                                store.entries_view(),
                                store.entries_view(),
                                sims@,
                                threshold_milli,
                            ).to_multiset()
                            &&& sorted_by_sim(sorted)
                            &&& result_views(v@) == (if dedup_by_content(sorted).len()
                                <= RESULT_LIMIT {
                                dedup_by_content(sorted)
                            } else {
                                dedup_by_content(sorted).take(RESULT_LIMIT as int)
                            })
                        },
                    None => false,
                }
            } else {
                exists|full: Seq<CandV>|
                    {
                        let dir = directory.spec_bytes();
                        let window = match params.time_range {
                            Some(tr) => Some(
                                crate::search::resolved_range(
                                    tr,
                                    params.custom_start,
                                    params.custom_end,
                                    now,
                                    local_midnight,
                                ),
                            ),
                            None => None,
                        };
                        let q = lower_bytes_spec(
                            crate::search::join_space(params.keywords.deep_view()),
                        );
                        let cands = store.entries_view().filter(
                            |e: crate::types::EntryV| plan_match(
                                e,
                                params.keywords.deep_view(),
                                params.entry_types,
                            ),
                        ).map_values(
                            |e: crate::types::EntryV| CandV {
                                entry: e,
                                boost: plan_boost(e, dir, window),
                            },
                        );
                        &&& #[trigger] full.to_multiset() == cands.to_multiset()
                        &&& sorted_cands(full)
                        &&& ranked_results(
                            if full.len() <= CANDIDATE_LIMIT {
                                full
                            } else {
                                full.take(CANDIDATE_LIMIT as int)
                            },
                            q,
                            dir,
                            result_views(v@),
                        )
                    }
            },
            Err(_) => true,
        },
    {
    if params.use_semantic {
        match sims_milli {
            Some(sims) => Ok(semantic_search(store, sims, threshold_milli)),
            None => Err(()),
        }
    } else {
        Ok(keyword_search_with_params(store, params, directory, now, local_midnight))
    }
}

} // verus!
