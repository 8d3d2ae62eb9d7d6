use vstd::prelude::*;

verus! {

/// Whether the shell-style pattern matches the name: `None` where the
/// pattern does not compile, else whether it matches.
pub uninterp spec fn glob_result(pattern: Seq<char>, name: Seq<char>) -> Option<bool>;

/// Relies on `glob::Pattern::new` to compile the pattern and on
/// `glob::Pattern::matches` to test the name with the default options; both
/// depend on the two strings alone.
#[verifier::external_body]
fn glob_matches(pattern: &str, name: &str) -> (r: Option<bool>)
    ensures
        r == glob_result(pattern@, name@),
{
    match glob::Pattern::new(pattern) {
        Ok(p) => Some(p.matches(name)),
        Err(_) => None,
    }
}

/// The answer for a name from one answer per pattern: `None` where a
/// pattern did not compile, else whether any pattern matched.
pub open spec fn any_of(rs: Seq<Option<bool>>) -> Option<bool> {
    if exists|i: int| 0 <= i < rs.len() && rs[i] is None {
        None
    } else {
        Some(exists|i: int| 0 <= i < rs.len() && rs[i] == Some(true))
    }
}

/// Combines the answers of every pattern for one name.
pub fn any_match(results: &Vec<Option<bool>>) -> (r: Option<bool>)
    ensures
        r == any_of(results@),
{
    let mut found = false;
    let mut i: usize = 0;
    while i < results.len()
        invariant
            i <= results@.len(),
            forall|t: int| 0 <= t < i ==> results@[t] is Some,
            found == exists|t: int| 0 <= t < i && results@[t] == Some(true),
        decreases results.len() - i,
    {
        match results[i] {
            None => {
                return None;
            },
            Some(m) => {
                if m {
                    found = true;
                }
            },
        }
        i = i + 1;
    }
    Some(found)
}

/// The answers of each pattern for `name`.
pub open spec fn answers(patterns: Seq<String>, name: Seq<char>) -> Seq<Option<bool>> {
    patterns.map_values(|p: String| glob_result(p@, name))
}

/// Whether `name` matches any of the patterns; `None` where one of them does
/// not compile.
pub fn name_matches(patterns: &Vec<String>, name: &str) -> (r: Option<bool>)
    ensures
        r == any_of(answers(patterns@, name@)),
{
    let mut results: Vec<Option<bool>> = Vec::new();
    let mut i: usize = 0;
    while i < patterns.len()
        invariant
            i <= patterns@.len(),
            results@ == answers(patterns@, name@).take(i as int),
        decreases patterns.len() - i,
    {
        results.push(glob_matches(patterns[i].as_str(), name));
        i = i + 1;
        proof {
            assert(results@ =~= answers(patterns@, name@).take(i as int));
        }
    }
    proof {
        assert(results@ =~= answers(patterns@, name@));
    }
    any_match(&results)
}

/// The positions of the names that the patterns select, in order.
pub open spec fn selected(patterns: Seq<String>, names: Seq<String>, n: int) -> Option<Seq<usize>>
    decreases n,
{
    if n <= 0 {
        Some(Seq::empty())
    } else {
        match selected(patterns, names, n - 1) {
            None => None,
            Some(s) => match any_of(answers(patterns, names[n - 1]@)) {
                None => None,
                Some(true) => Some(s.push((n - 1) as usize)),
                Some(false) => Some(s),
            },
        }
    }
}

/// Selects the names that match any of the patterns, by position and in
/// order; `None` where a pattern does not compile.
pub fn select_by_glob(patterns: &Vec<String>, names: &Vec<String>) -> (r: Option<Vec<usize>>)
    ensures
        match selected(patterns@, names@, names@.len() as int) {
            Some(s) => r is Some && r->0@ == s,
            None => r is None,
        },
{
    let mut out: Vec<usize> = Vec::new();
    let mut k: usize = 0;
    while k < names.len()
        invariant
            k <= names@.len(),
            selected(patterns@, names@, k as int) == Some(out@),
        decreases names.len() - k,
    {
        match name_matches(patterns, names[k].as_str()) {
            None => {
                proof {
                    lemma_selected_none_stays(patterns@, names@, k + 1, names@.len() as int);
                }
                return None;
            },
            Some(m) => {
                if m {
                    out.push(k);
                }
            },
        }
        k = k + 1;
    }
    Some(out)
}

proof fn lemma_selected_none_stays(patterns: Seq<String>, names: Seq<String>, m: int, n: int)
    requires
        m <= n,
        selected(patterns, names, m) is None,
    ensures
        selected(patterns, names, n) is None,
    decreases n - m,
{
    if m < n {
        lemma_selected_none_stays(patterns, names, m, n - 1);
    }
}

} // verus!
