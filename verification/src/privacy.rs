//! The built-in privacy filter: vetoes capture of commands that match the
//! user's exclusion policy (literal matchers on the command, regular
//! expressions and folder exclusions on the working directory).
use vstd::prelude::*;

use vstd::string::StringSliceAdditionalSpecFns;

use crate::text::{contains_seq, is_prefix_of, is_suffix_of, lower_bytes, lower_bytes_spec, str_bytes};
use crate::types::PluginAction;

verus! {

/// The user's capture exclusion policy.
#[derive(Debug, Clone)]
pub struct PrivacyConfig {
    pub excludes_contains_string: Vec<String>,
    pub excludes_starts_with_string: Vec<String>,
    pub excludes_ends_with_string: Vec<String>,
    pub excludes_regex: Vec<String>,
    pub exclude_folders: Vec<String>,
}

/// A captured shell command with its context, as the capture hook sees it.
#[derive(Debug, Clone)]
pub struct CommandContext {
    pub command: String,
    pub working_dir: String,
    pub user: String,
    pub host: String,
    pub timestamp: u64,
}

/// Whether a pattern compiles as a regular expression. The result is a
/// fixed property of the pattern text.
pub uninterp spec fn regex_is_valid(pat: Seq<char>) -> bool;

/// Whether a (valid) regular expression matches a text. The result is a
/// function of pattern and text alone.
pub uninterp spec fn regex_match_of(pat: Seq<char>, text: Seq<char>) -> bool;

/// Relies on regex::Regex::new, which fails on exactly the patterns the
/// crate's grammar refuses, and regex::Regex::is_match, a pure function of
/// the compiled pattern and the haystack.
#[verifier::external_body]
fn regex_matches(pattern: &str, text: &str) -> (r: Option<bool>)
    ensures
        r is Some <==> regex_is_valid(pattern@),
        match r {
            Some(b) => b == regex_match_of(pattern@, text@),
            None => true,
        },
{
    match regex::Regex::new(pattern) {
        Ok(re) => Some(re.is_match(text)),
        Err(_) => None,
    }
}

/// The views of a list of pattern strings.
pub open spec fn pat_views(ps: Seq<String>) -> Seq<Seq<char>> {
    ps.map_values(|p: String| p@)
}

/// Whether the lower-cased command contains any of the literals.
pub open spec fn hits_contains(pats: Seq<Seq<char>>, cmd_l: Seq<u8>) -> bool {
    exists|i: int| 0 <= i < pats.len() && contains_seq(cmd_l, str_bytes(#[trigger] pats[i]))
}

/// Whether the lower-cased command starts with any of the literals.
pub open spec fn hits_starts(pats: Seq<Seq<char>>, cmd_l: Seq<u8>) -> bool {
    exists|i: int| 0 <= i < pats.len() && is_prefix_of(str_bytes(#[trigger] pats[i]), cmd_l)
}

/// Whether the lower-cased command ends with any of the literals.
pub open spec fn hits_ends(pats: Seq<Seq<char>>, cmd_l: Seq<u8>) -> bool {
    exists|i: int| 0 <= i < pats.len() && is_suffix_of(str_bytes(#[trigger] pats[i]), cmd_l)
}

/// A byte sequence without its trailing `/` bytes.
pub open spec fn trim_trailing_slashes(s: Seq<u8>) -> Seq<u8>
    decreases s.len(),
{
    if s.len() > 0 && s.last() == 47 {
        trim_trailing_slashes(s.drop_last())
    } else {
        s
    }
}

/// Whether the working directory equals an excluded folder or lies beneath
/// one (both sides compared lower-cased).
pub open spec fn hits_folder(folders: Seq<Seq<char>>, wd_l: Seq<u8>) -> bool {
    exists|i: int|
        0 <= i < folders.len() && {
            let pat_l = lower_bytes_spec(str_bytes(#[trigger] folders[i]));
            wd_l == pat_l || is_prefix_of(trim_trailing_slashes(pat_l) + str_bytes("/"@), wd_l)
        }
}

/// Whether any of the (valid) exclusion regexes matches the raw working
/// directory; patterns that do not compile are ignored.
pub open spec fn hits_regex(pats: Seq<Seq<char>>, wd: Seq<char>) -> bool {
    exists|i: int|
        0 <= i < pats.len() && regex_is_valid(#[trigger] pats[i]) && regex_match_of(pats[i], wd)
}

/// Whether the policy rejects capturing this command in this directory.
pub open spec fn privacy_rejects(p: PrivacyConfig, cmd: Seq<char>, wd: Seq<char>) -> bool {
    let cmd_l = lower_bytes_spec(str_bytes(cmd));
    let wd_l = lower_bytes_spec(str_bytes(wd));
    ||| hits_contains(pat_views(p.excludes_contains_string@), cmd_l)
    ||| hits_folder(pat_views(p.exclude_folders@), wd_l)
    ||| hits_regex(pat_views(p.excludes_regex@), wd)
    ||| hits_starts(pat_views(p.excludes_starts_with_string@), cmd_l)
    ||| hits_ends(pat_views(p.excludes_ends_with_string@), cmd_l)
}

/// The built-in capture filter backed by the privacy policy.
pub struct SensitiveCommandFilter;

impl SensitiveCommandFilter {
    /// Veto the capture (`Skip`) exactly when the policy rejects the
    /// command: a lower-cased contains / starts-with / ends-with literal
    /// hit, a working directory inside an excluded folder, or an exclusion
    /// regex matching the working directory. A malformed regex is ignored.
    pub fn on_command_captured(&self, context: &CommandContext, privacy: &PrivacyConfig) -> (r:
        PluginAction)
        ensures
            r == (if privacy_rejects(*privacy, context.command@, context.working_dir@) {
                PluginAction::Skip
            } else {
                PluginAction::Continue
            }),
    {
        let cmd_l = lower_bytes(context.command.as_str().as_bytes());
        let wd_l = lower_bytes(context.working_dir.as_str().as_bytes());
        let ghost cl = lower_bytes_spec(str_bytes(context.command@));
        let ghost wl = lower_bytes_spec(str_bytes(context.working_dir@));

        let cpats = &privacy.excludes_contains_string;
        let mut i: usize = 0;
        while i < cpats.len()
            invariant
                i <= cpats@.len(),
                cpats@ == privacy.excludes_contains_string@,
                cl == lower_bytes_spec(str_bytes(context.command@)),
                cmd_l@ == cl,
                forall|j: int|
                    0 <= j < i ==> !contains_seq(cl, str_bytes(#[trigger] pat_views(cpats@)[j])),
            decreases cpats@.len() - i,
        {
            let hit = crate::text::contains_bytes(cmd_l.as_slice(), cpats[i].as_str().as_bytes());
            proof {
                assert(pat_views(cpats@)[i as int] == cpats@[i as int]@);
            }
            if hit {
                proof {
                    assert(contains_seq(cl, str_bytes(pat_views(cpats@)[i as int])));
                }
                return PluginAction::Skip;
            }
            i = i + 1;
        }

        let folders = &privacy.exclude_folders;
        let mut f: usize = 0;
        while f < folders.len()
            invariant
                f <= folders@.len(),
                folders@ == privacy.exclude_folders@,
                wl == lower_bytes_spec(str_bytes(context.working_dir@)),
                wd_l@ == wl,
                forall|j: int|
                    0 <= j < f ==> !({
                        let pat_l = lower_bytes_spec(str_bytes(#[trigger] pat_views(folders@)[j]));
                        wl == pat_l || is_prefix_of(
                            trim_trailing_slashes(pat_l) + str_bytes("/"@),
                            wl,
                        )
                    }),
            decreases folders@.len() - f,
        {
            let pat_l = lower_bytes(folders[f].as_str().as_bytes());
            proof {
                assert(pat_views(folders@)[f as int] == folders@[f as int]@);
            }
            if crate::text::eq_bytes(wd_l.as_slice(), pat_l.as_slice()) {
                return PluginAction::Skip;
            }
            let trimmed = trim_slashes_exec(&pat_l);
            let mut nested = trimmed;
            let mut slash = "/".as_bytes_vec();
            nested.append(&mut slash);
            if crate::text::starts_with_bytes(wd_l.as_slice(), nested.as_slice()) {
                return PluginAction::Skip;
            }
            f = f + 1;
        }

        let rpats = &privacy.excludes_regex;
        let mut ri: usize = 0;
        while ri < rpats.len()
            invariant
                ri <= rpats@.len(),
                rpats@ == privacy.excludes_regex@,
                forall|j: int|
                    0 <= j < ri ==> !(regex_is_valid(#[trigger] pat_views(rpats@)[j])
                        && regex_match_of(pat_views(rpats@)[j], context.working_dir@)),
            decreases rpats@.len() - ri,
        {
            let m = regex_matches(rpats[ri].as_str(), context.working_dir.as_str());
            proof {
                assert(pat_views(rpats@)[ri as int] == rpats@[ri as int]@);
            }
            match m {
                Some(true) => {
                    proof {
                        assert(regex_is_valid(pat_views(rpats@)[ri as int]) && regex_match_of(
                            pat_views(rpats@)[ri as int],
                            context.working_dir@,
                        ));
                    }
                    return PluginAction::Skip;
                },
                _ => {},
            }
            ri = ri + 1;
        }

        let spats = &privacy.excludes_starts_with_string;
        let mut si: usize = 0;
        while si < spats.len()
            invariant
                si <= spats@.len(),
                spats@ == privacy.excludes_starts_with_string@,
                cl == lower_bytes_spec(str_bytes(context.command@)),
                cmd_l@ == cl,
                forall|j: int|
                    0 <= j < si ==> !is_prefix_of(str_bytes(#[trigger] pat_views(spats@)[j]), cl),
            decreases spats@.len() - si,
        {
            let hit = crate::text::starts_with_bytes(
                cmd_l.as_slice(),
                spats[si].as_str().as_bytes(),
            );
            proof {
                assert(pat_views(spats@)[si as int] == spats@[si as int]@);
            }
            if hit {
                return PluginAction::Skip;
            }
            si = si + 1;
        }

        let epats = &privacy.excludes_ends_with_string;
        let mut ei: usize = 0;
        while ei < epats.len()
            invariant
                ei <= epats@.len(),
                epats@ == privacy.excludes_ends_with_string@,
                cl == lower_bytes_spec(str_bytes(context.command@)),
                cmd_l@ == cl,
                forall|j: int|
                    0 <= j < ei ==> !is_suffix_of(str_bytes(#[trigger] pat_views(epats@)[j]), cl),
            decreases epats@.len() - ei,
        {
            let hit = crate::text::ends_with_bytes(cmd_l.as_slice(), epats[ei].as_str().as_bytes());
            proof {
                assert(pat_views(epats@)[ei as int] == epats@[ei as int]@);
            }
            if hit {
                return PluginAction::Skip;
            }
            ei = ei + 1;
        }
        PluginAction::Continue
    }
}

/// Drop trailing `/` bytes.
fn trim_slashes_exec(s: &Vec<u8>) -> (r: Vec<u8>)
    ensures
        r@ == trim_trailing_slashes(s@),
{
    let mut end = s.len();
    proof {
        assert(s@.take(s@.len() as int) =~= s@);
    }
    while end > 0 && s[end - 1] == 47
        invariant
            end <= s@.len(),
            trim_trailing_slashes(s@) == trim_trailing_slashes(s@.take(end as int)),
        decreases end,
    {
        proof {
            assert(s@.take(end as int).drop_last() =~= s@.take(end - 1));
        }
        end = end - 1;
    }
    let r = crate::text::slice_range_vec(s.as_slice(), 0, end);
    proof {
        if end > 0 {
            assert(!(s@.take(end as int).len() > 0 && s@.take(end as int).last() == 47));
        }
        assert(trim_trailing_slashes(s@.take(end as int)) == s@.take(end as int));
        assert(r@ =~= s@.take(end as int));
    }
    r
}

} // verus!
