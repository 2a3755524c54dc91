//! The names and parameter lists of result files.
use crate::text::{append_decimal, decimal};
use vstd::prelude::*;
use vstd::string::*;

verus! {

/// The position of the last `/` in `path`; -1 if there is none.
pub open spec fn last_slash(path: Seq<char>) -> int
    decreases path.len(),
{
    if path.len() == 0 {
        -1
    } else if path.last() == '/' {
        path.len() - 1
    } else {
        last_slash(path.drop_last())
    }
}

/// What stands before the last `/` of `path`; all of it if there is none.
pub open spec fn parent(path: Seq<char>) -> Seq<char> {
    if last_slash(path) >= 0 {
        path.take(last_slash(path))
    } else {
        path
    }
}

/// The group that a group of queries belongs to.
pub fn parent_group(group: &str) -> (result: &str)
    ensures
        result@ == parent(group@),
{
    let mut end: usize = group.unicode_len();
    assert(group@.take(end as int) =~= group@);
    while end > 0
        invariant
            end <= group@.len(),
            last_slash(group@) == last_slash(group@.take(end as int)),
        decreases end,
    {
        proof {
            assert(group@.take(end as int).drop_last() =~= group@.take(end - 1));
            assert(group@.take(end as int).last() == group@[end - 1]);
        }
        if group.get_char(end - 1) == '/' {
            let result = group.substring_char(0, end - 1);
            assert(result@ =~= group@.take(end - 1));
            return result;
        }
        end -= 1;
    }
    group
}

/// The parameter list of a search.
pub open spec fn search_params_text(
    m: nat,
    ef_construction: nat,
    ef_search: nat,
    termination: Seq<char>,
) -> Seq<char> {
    "M="@ + decimal(m) + ",efConstruction="@ + decimal(ef_construction) + ",efSearch="@ + decimal(
        ef_search,
    ) + termination
}

/// The parameter list of a search. `termination` tells of early termination, if there is any.
pub fn search_params(
    m: usize,
    ef_construction: usize,
    ef_search: usize,
    termination: &str,
) -> (text: String)
    ensures
        text@ == search_params_text(
            m as nat,
            ef_construction as nat,
            ef_search as nat,
            termination@,
        ),
{
    let mut text = String::from_str("M=");
    append_decimal(&mut text, m);
    text.append(",efConstruction=");
    append_decimal(&mut text, ef_construction);
    text.append(",efSearch=");
    append_decimal(&mut text, ef_search);
    text.append(termination);
    text
}

/// The stem of every result file name.
pub open spec fn result_stem(
    directory: Seq<char>,
    algorithm: Seq<char>,
    m: nat,
    ef_construction: nat,
    ef_search: nat,
) -> Seq<char> {
    directory + "/"@ + algorithm + "_M"@ + decimal(m) + "_efC"@ + decimal(ef_construction)
        + "_efS"@ + decimal(ef_search)
}

fn append_stem(
    text: &mut String,
    directory: &str,
    algorithm: &str,
    m: usize,
    ef_construction: usize,
    ef_search: usize,
)
    requires
        old(text)@.len() == 0,
    ensures
        final(text)@ == result_stem(
            directory@,
            algorithm@,
            m as nat,
            ef_construction as nat,
            ef_search as nat,
        ),
{
    text.append(directory);
    assert(text@ =~= directory@);
    text.append("/");
    text.append(algorithm);
    text.append("_M");
    append_decimal(text, m);
    text.append("_efC");
    append_decimal(text, ef_construction);
    text.append("_efS");
    append_decimal(text, ef_search);
}

/// The name of the result file of a search. `suffix` tells of early termination, if there is any.
pub fn search_result_path(
    directory: &str,
    algorithm: &str,
    m: usize,
    ef_construction: usize,
    ef_search: usize,
    suffix: &str,
) -> (path: String)
    ensures
        path@ == result_stem(
            directory@,
            algorithm@,
            m as nat,
            ef_construction as nat,
            ef_search as nat,
        ) + suffix@ + ".h5"@,
{
    let mut path = String::new();
    append_stem(&mut path, directory, algorithm, m, ef_construction, ef_search);
    path.append(suffix);
    path.append(".h5");
    path
}

/// The parameter list of a search with reranking.
pub open spec fn rerank_params_text(
    m: nat,
    ef_construction: nat,
    ef_search: nat,
    k_candidates: nat,
    query_top_h: nat,
    l1_fraction: Seq<char>,
    lambda: Seq<char>,
    alpha: Seq<char>,
) -> Seq<char> {
    "M="@ + decimal(m) + ",efConstruction="@ + decimal(ef_construction) + ",efSearch="@ + decimal(
        ef_search,
    ) + ",kCandidates="@ + decimal(k_candidates) + ",queryTopH="@ + decimal(query_top_h)
        + ",l1Fraction="@ + l1_fraction + ",lambda="@ + lambda + ",alpha="@ + alpha
}

/// The parameter list of a search with reranking.
pub fn rerank_params(
    m: usize,
    ef_construction: usize,
    ef_search: usize,
    k_candidates: usize,
    query_top_h: usize,
    l1_fraction: &str,
    lambda: &str,
    alpha: &str,
) -> (text: String)
    ensures
        text@ == rerank_params_text(
            m as nat,
            ef_construction as nat,
            ef_search as nat,
            k_candidates as nat,
            query_top_h as nat,
            l1_fraction@,
            lambda@,
            alpha@,
        ),
{
    let mut text = String::from_str("M=");
    append_decimal(&mut text, m);
    text.append(",efConstruction=");
    append_decimal(&mut text, ef_construction);
    text.append(",efSearch=");
    append_decimal(&mut text, ef_search);
    text.append(",kCandidates=");
    append_decimal(&mut text, k_candidates);
    text.append(",queryTopH=");
    append_decimal(&mut text, query_top_h);
    text.append(",l1Fraction=");
    text.append(l1_fraction);
    text.append(",lambda=");
    text.append(lambda);
    text.append(",alpha=");
    text.append(alpha);
    text
}

/// The name of the result file of a search with reranking.
pub fn rerank_result_path(
    directory: &str,
    algorithm: &str,
    m: usize,
    ef_construction: usize,
    ef_search: usize,
    k_candidates: usize,
    query_top_h: usize,
    lambda: &str,
    alpha: &str,
) -> (path: String)
    ensures
        path@ == result_stem(
            directory@,
            algorithm@,
            m as nat,
            ef_construction as nat,
            ef_search as nat,
        ) + "_kC"@ + decimal(k_candidates as nat) + "_h"@ + decimal(query_top_h as nat) + "_l"@
            + lambda@ + "_a"@ + alpha@ + ".h5"@,
{
    let mut path = String::new();
    append_stem(&mut path, directory, algorithm, m, ef_construction, ef_search);
    path.append("_kC");
    append_decimal(&mut path, k_candidates);
    path.append("_h");
    append_decimal(&mut path, query_top_h);
    path.append("_l");
    path.append(lambda);
    path.append("_a");
    path.append(alpha);
    path.append(".h5");
    path
}

/// The parent of a path is what stands before its last `/`: the path goes on with a `/` there, and
/// there is none after that. A path without any `/` is its own parent.
pub proof fn law_parent_ends_before_the_last_slash(path: Seq<char>)
    ensures
        parent(path).len() <= path.len(),
        parent(path) == path.take(parent(path).len() as int),
        path.contains('/') ==> parent(path).len() < path.len() && path[parent(path).len() as int]
            == '/' && forall|i: int|
            parent(path).len() < i < path.len() ==> #[trigger] path[i] != '/',
        !path.contains('/') ==> parent(path) == path,
{
    lemma_last_slash(path);
    assert(path.take(path.len() as int) =~= path);
    if last_slash(path) >= 0 {
        assert(path.contains(path[last_slash(path)]));
    } else {
        if path.contains('/') {
            let i = choose|i: int| 0 <= i < path.len() && path[i] == '/';
            assert(path[i] != '/');
        }
    }
}

proof fn lemma_last_slash(path: Seq<char>)
    ensures
        -1 <= last_slash(path) < path.len(),
        last_slash(path) >= 0 ==> path[last_slash(path)] == '/',
        forall|i: int| last_slash(path) < i < path.len() ==> #[trigger] path[i] != '/',
    decreases path.len(),
{
    if path.len() > 0 && path.last() != '/' {
        let rest = path.drop_last();
        lemma_last_slash(rest);
        assert forall|i: int| last_slash(path) < i < path.len() implies #[trigger] path[i]
            != '/' by {
            if i < rest.len() {
                assert(rest[i] == path[i]);
            }
        }
    }
}

} // verus!
