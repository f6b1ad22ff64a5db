//! Language-model collaborator types: the structured query plan the model
//! produces, model sizing, and the cleaning of raw model responses down to
//! the JSON object they must contain.
use vstd::prelude::*;

use vstd::string::StringSliceAdditionalSpecFns;

use crate::text::{lower_bytes, lower_bytes_spec, str_bytes};
use crate::types::EntryType;

verus! {

/// The coarse time window a plan restricts boosting to.
#[derive(Debug, Clone, Copy, PartialEq, Eq, Structural)]
pub enum SimpleTimeRange {
    Today,
    Yesterday,
    LastWeek,
    LastMonth,
    Custom,
}

/// Extra equality filters a plan may carry.
#[derive(Debug, Clone)]
pub struct QueryFilters {
    pub working_dir: Option<Vec<u8>>,
    pub app_name: Option<Vec<u8>>,
}

/// The structured search parameters the model (or the cache) hands the
/// executor.
#[derive(Debug, Clone)]
pub struct LLMQueryParams {
    pub keywords: Vec<Vec<u8>>,
    pub entry_types: Option<EntryType>,
    pub time_range: Option<SimpleTimeRange>,
    pub custom_start: Option<u64>,
    pub custom_end: Option<u64>,
    pub filters: Option<QueryFilters>,
    pub use_semantic: bool,
}

/// The mathematical value of a plan.
#[verifier::ext_equal]
pub ghost struct PlanV {
    pub keywords: Seq<Seq<u8>>,
    pub entry_types: Option<EntryType>,
    pub time_range: Option<SimpleTimeRange>,
    pub custom_start: Option<u64>,
    pub custom_end: Option<u64>,
    pub filter_working_dir: Option<Seq<u8>>,
    pub filter_app_name: Option<Seq<u8>>,
    pub use_semantic: bool,
}

impl View for LLMQueryParams {
    type V = PlanV;

    open spec fn view(&self) -> PlanV {
        PlanV {
            keywords: self.keywords.deep_view(),
            entry_types: self.entry_types,
            time_range: self.time_range,
            custom_start: self.custom_start,
            custom_end: self.custom_end,
            filter_working_dir: match self.filters {
                Some(f) => crate::types::opt_bytes(f.working_dir),
                None => None,
            },
            filter_app_name: match self.filters {
                Some(f) => crate::types::opt_bytes(f.app_name),
                None => None,
            },
            use_semantic: self.use_semantic,
        }
    }
}

impl LLMQueryParams {
    /// A field-for-field copy of this plan.
    pub fn duplicate(&self) -> (r: LLMQueryParams)
        ensures
            r@ == self@,
    {
        let mut kws: Vec<Vec<u8>> = Vec::new();
        let mut i: usize = 0;
        while i < self.keywords.len()
            invariant
                i <= self.keywords@.len(),
                kws.deep_view() == self.keywords.deep_view().take(i as int),
            decreases self.keywords@.len() - i,
        {
            let w = crate::types::clone_bytes(&self.keywords[i]);
            let ghost pre = kws.deep_view();
            proof {
                assert(w.deep_view() =~= w@);
                assert(self.keywords.deep_view()[i as int] =~= self.keywords@[i as int]@);
            }
            kws.push(w);
            proof {
                assert(kws.deep_view() =~= pre.push(w@));
                assert(self.keywords.deep_view().take(i + 1 as int) =~= pre.push(w@));
            }
            i = i + 1;
        }
        proof {
            assert(self.keywords.deep_view().take(self.keywords@.len() as int)
                =~= self.keywords.deep_view());
        }
        let filters = match &self.filters {
            None => None,
            Some(f) => Some(
                QueryFilters {
                    working_dir: crate::types::clone_opt_bytes(&f.working_dir),
                    app_name: crate::types::clone_opt_bytes(&f.app_name),
                },
            ),
        };
        let r = LLMQueryParams {
            keywords: kws,
            entry_types: self.entry_types,
            time_range: self.time_range,
            custom_start: self.custom_start,
            custom_end: self.custom_end,
            filters,
            use_semantic: self.use_semantic,
        };
        proof {
            assert(r@ =~~= self@);
        }
        r
    }
}

/// The error kinds the language-model layer reports.
#[derive(Debug, Clone, PartialEq, Eq, Structural)]
pub enum LlmError {
    OllamaNotInstalled,
    OllamaNotRunning,
    ModelNotFound,
    InvalidResponse,
    Other,
}

/// Declared model capacity, detected from the model name.
#[derive(Debug, Clone, Copy, PartialEq, Eq, Structural)]
pub enum ModelSize {
    Tiny,
    Small,
    Medium,
    Large,
}

/// The capacity bucket a model name falls into.
pub open spec fn model_size_of(name: Seq<u8>) -> ModelSize {
    let n = lower_bytes_spec(name);
    if crate::text::contains_seq(n, str_bytes("0.5b"@)) {
        ModelSize::Tiny
    } else if crate::text::contains_seq(n, str_bytes("1.5b"@)) {
        ModelSize::Small
    } else if crate::text::contains_seq(n, str_bytes("3b"@)) {
        ModelSize::Small
    } else if crate::text::contains_seq(n, str_bytes("7b"@)) {
        ModelSize::Medium
    } else if crate::text::contains_seq(n, str_bytes("8b"@)) {
        ModelSize::Medium
    } else if crate::text::contains_seq(n, str_bytes("13b"@)) {
        ModelSize::Large
    } else if crate::text::contains_seq(n, str_bytes("70b"@)) {
        ModelSize::Large
    } else {
        ModelSize::Small
    }
}

/// Detect a model's capacity bucket from its name.
pub fn detect_model_size(name: &str) -> (r: ModelSize)
    ensures
        r == model_size_of(name.spec_bytes()),
{
    let n = lower_bytes(name.as_bytes());
    let ns = n.as_slice();
    if crate::text::contains_bytes(ns, "0.5b".as_bytes()) {
        ModelSize::Tiny
    } else if crate::text::contains_bytes(ns, "1.5b".as_bytes()) {
        ModelSize::Small
    } else if crate::text::contains_bytes(ns, "3b".as_bytes()) {
        ModelSize::Small
    } else if crate::text::contains_bytes(ns, "7b".as_bytes()) {
        ModelSize::Medium
    } else if crate::text::contains_bytes(ns, "8b".as_bytes()) {
        ModelSize::Medium
    } else if crate::text::contains_bytes(ns, "13b".as_bytes()) {
        ModelSize::Large
    } else if crate::text::contains_bytes(ns, "70b".as_bytes()) {
        ModelSize::Large
    } else {
        ModelSize::Small
    }
}

/// How many exemplar commands the planner shows a model of this size.
pub open spec fn sample_count_of(size: ModelSize) -> usize {
    match size {
        ModelSize::Tiny => 3,
        ModelSize::Small => 5,
        ModelSize::Medium => 8,
        ModelSize::Large => 15,
    }
}

/// How many exemplar commands the planner shows a model of this size.
pub fn get_recommended_sample_count(size: ModelSize) -> (r: usize)
    ensures
        r == sample_count_of(size),
{
    match size {
        ModelSize::Tiny => 3,
        ModelSize::Small => 5,
        ModelSize::Medium => 8,
        ModelSize::Large => 15,
    }
}

/// Bytes of a model response with everything outside the outermost
/// `{`..`}` stripped: the slice from the first `{` to the last `}`, both
/// included; the input unchanged when either brace is missing or the last
/// `}` precedes the first `{`.
pub open spec fn cleaned_response(s: Seq<u8>) -> Seq<u8> {
    if (exists|i: int| 0 <= i < s.len() && s[i] == 123) && (exists|i: int|
        0 <= i < s.len() && s[i] == 125) {
        let first = choose|i: int|
            0 <= i < s.len() && s[i] == 123 && forall|j: int| 0 <= j < i ==> s[j] != 123;
        let last = choose|i: int|
            0 <= i < s.len() && s[i] == 125 && forall|j: int| i < j < s.len() ==> s[j] != 125;
        if first <= last {
            s.subrange(first, last + 1)
        } else {
            s
        }
    } else {
        s
    }
}

/// Strip a raw model response down to the outermost JSON object: everything
/// before the first `{` and after the last `}` is dropped (this removes code
/// fences and prose around the object). A response without both braces in
/// order is returned unchanged.
pub fn clean_llm_response(response: &[u8]) -> (r: Vec<u8>)
    ensures
        r@ == cleaned_response(response@),
{
    let first = find_byte_first(response, 123);
    let last = find_byte_last(response, 125);
    match (first, last) {
        (Some(f), Some(l)) => {
            proof {
                let ghost s = response@;
                let fs = choose|i: int|
                    0 <= i < s.len() && s[i] == 123 && forall|j: int| 0 <= j < i ==> s[j] != 123;
                let ls = choose|i: int|
                    0 <= i < s.len() && s[i] == 125 && forall|j: int|
                        i < j < s.len() ==> s[j] != 125;
                assert(fs == f as int) by {
                    if fs < f {
                        assert(s[fs] != 123);
                    }
                    if fs > f {
                        assert(s[f as int] != 123);
                    }
                }
                assert(ls == l as int) by {
                    if ls < l {
                        assert(s[l as int] != 125);
                    }
                    if ls > l {
                        assert(s[ls] != 125);
                    }
                }
            }
            if f <= l {
                let n = response.len();
                crate::text::slice_range_vec(response, f, l + 1)
            } else {
                let r = crate::text::slice_range_vec(response, 0, response.len());
                proof {
                    assert(r@ =~= response@);
                }
                r
            }
        },
        _ => {
            let r = crate::text::slice_range_vec(response, 0, response.len());
            proof {
                assert(r@ =~= response@);
            }
            r
        },
    }
}

/// Index of the first occurrence of byte `b` in `s`, if any.
fn find_byte_first(s: &[u8], b: u8) -> (r: Option<usize>)
    ensures
        match r {
            Some(i) => i < s@.len() && s@[i as int] == b && forall|j: int|
                0 <= j < i ==> s@[j] != b,
            None => forall|j: int| 0 <= j < s@.len() ==> s@[j] != b,
        },
{
    let mut i: usize = 0;
    while i < s.len()
        invariant
            i <= s@.len(),
            forall|j: int| 0 <= j < i ==> s@[j] != b,
        decreases s@.len() - i,
    {
        if s[i] == b {
            return Some(i);
        }
        i = i + 1;
    }
    None
}

/// Index of the last occurrence of byte `b` in `s`, if any.
fn find_byte_last(s: &[u8], b: u8) -> (r: Option<usize>)
    ensures
        match r {
            Some(i) => i < s@.len() && s@[i as int] == b && forall|j: int|
                i < j < s@.len() ==> s@[j] != b,
            None => forall|j: int| 0 <= j < s@.len() ==> s@[j] != b,
        },
{
    let mut i: usize = s.len();
    while i > 0
        invariant
            i <= s@.len(),
            forall|j: int| i <= j < s@.len() ==> s@[j] != b,
        decreases i,
    {
        i = i - 1;
        if s[i] == b {
            return Some(i);
        }
    }
    None
}

} // verus!
