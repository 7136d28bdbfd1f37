use vstd::prelude::*;
use vstd::string::StringExecFns;
use crate::config::Watcher;
use crate::error::Error;
use crate::strutil::chars_of;

verus! {

/// A configured service-name token is a pattern when it holds a wildcard;
/// otherwise it is a literal name.
pub open spec fn is_pattern_spec(token: Seq<char>) -> bool {
    token.contains('*') || token.contains('?')
}

/// Full-string wildcard matching: `?` matches exactly one character, `*`
/// matches zero or more characters, and both the text and the pattern must
/// be consumed entirely.
pub open spec fn wildcard_match(text: Seq<char>, pattern: Seq<char>) -> bool
    decreases text.len() + pattern.len(),
{
    if pattern.len() == 0 {
        text.len() == 0
    } else if pattern.last() == '*' {
        wildcard_match(text, pattern.drop_last()) || (text.len() > 0 && wildcard_match(
            text.drop_last(),
            pattern,
        ))
    } else {
        text.len() > 0 && (pattern.last() == '?' || text.last() == pattern.last())
            && wildcard_match(text.drop_last(), pattern.drop_last())
    }
}

/// Whether a token holds a `*` or `?` wildcard.
pub fn is_pattern(pattern: &str) -> (r: bool)
    ensures
        r == is_pattern_spec(pattern@),
{
    let chars = chars_of(pattern);
    let n = chars.len();
    let mut i: usize = 0;
    while i < n
        invariant
            i <= n,
            n == chars@.len(),
            chars@ == pattern@,
            forall|j: int| 0 <= j < i ==> chars@[j] != '*' && chars@[j] != '?',
        decreases n - i,
    {
        let c = chars[i];
        if c == '*' || c == '?' {
            return true;
        }
        i += 1;
    }
    false
}

/// Decides `wildcard_match(text@, pattern@)` with a dynamic-programming
/// table over prefixes: cell `(i, j)` says whether the first `i` characters
/// of the text match the first `j` characters of the pattern.
pub fn is_match(text: &str, pattern: &str) -> (r: bool)
    ensures
        r == wildcard_match(text@, pattern@),
{
    let t = chars_of(text);
    let p = chars_of(pattern);
    let m = t.len();
    let n = p.len();

    // Row for the empty text prefix; cell `jj + 1` covers pattern prefix
    // `jj + 1`.
    let mut prev: Vec<bool> = Vec::new();
    prev.push(true);
    let mut jj: usize = 0;
    while jj < n
        invariant
            jj <= n,
            t@ == text@,
            p@ == pattern@,
            n == p@.len(),
            prev@.len() == jj + 1,
            forall|k: int| 0 <= k <= jj ==> prev@[k] == wildcard_match(
                t@.take(0),
                p@.take(k),
            ),
        decreases n - jj,
    {
        let star = p[jj] == '*';
        let v = star && prev[jj];
        proof {
            let pp = p@.take(jj + 1);
            assert(pp.len() == jj + 1);
            assert(pp.last() == p@[jj as int]);
            assert(pp.drop_last() =~= p@.take(jj as int));
            assert(t@.take(0).len() == 0);
        }
        prev.push(v);
        jj += 1;
    }

    // Row `ii + 1` covers the text prefix of length `ii + 1`.
    let mut ii: usize = 0;
    while ii < m
        invariant
            ii <= m,
            t@ == text@,
            p@ == pattern@,
            m == t@.len(),
            n == p@.len(),
            prev@.len() == n + 1,
            forall|k: int| 0 <= k <= n ==> prev@[k] == wildcard_match(
                t@.take(ii as int),
                p@.take(k),
            ),
        decreases m - ii,
    {
        let mut curr: Vec<bool> = Vec::new();
        curr.push(false);
        proof {
            let tt = t@.take(ii + 1);
            assert(tt.len() == ii + 1);
            assert(p@.take(0).len() == 0);
        }
        let mut kk: usize = 0;
        while kk < n
            invariant
                ii < m,
                kk <= n,
                t@ == text@,
                p@ == pattern@,
                m == t@.len(),
                n == p@.len(),
                prev@.len() == n + 1,
                curr@.len() == kk + 1,
                forall|k: int| 0 <= k <= n ==> prev@[k] == wildcard_match(
                    t@.take(ii as int),
                    p@.take(k),
                ),
                forall|k: int| 0 <= k <= kk ==> curr@[k] == wildcard_match(
                    t@.take(ii + 1),
                    p@.take(k),
                ),
            decreases n - kk,
        {
            let pc = p[kk];
            let v = if pc == '*' {
                curr[kk] || prev[kk + 1]
            } else if pc == '?' || t[ii] == pc {
                prev[kk]
            } else {
                false
            };
            proof {
                let tt = t@.take(ii + 1);
                let pp = p@.take(kk + 1);
                assert(tt.len() == ii + 1);
                assert(pp.len() == kk + 1);
                assert(pp.last() == p@[kk as int]);
                assert(pp.drop_last() =~= p@.take(kk as int));
                assert(tt.last() == t@[ii as int]);
                assert(tt.drop_last() =~= t@.take(ii as int));
            }
            curr.push(v);
            kk += 1;
        }
        prev = curr;
        ii += 1;
    }

    proof {
        assert(t@.take(m as int) =~= t@);
        assert(p@.take(n as int) =~= p@);
    }
    prev[n]
}

/// The matching predicate of one pattern token: a live name is selected when
/// it is non-empty and the pattern matches it in full.
pub open spec fn match_pred(token: Seq<char>) -> spec_fn(Seq<char>) -> bool {
    |n: Seq<char>| n.len() > 0 && wildcard_match(n, token)
}

/// The live names selected by one pattern token, in inventory order.
pub open spec fn pattern_matches(live: Seq<Seq<char>>, token: Seq<char>) -> Seq<Seq<char>> {
    live.filter(match_pred(token))
}

/// Appends matched names to the already-resolved list, failing on the first
/// name that was already selected.
pub open spec fn append_matches(acc: Seq<Seq<char>>, ms: Seq<Seq<char>>) -> Option<
    Seq<Seq<char>>,
>
    decreases ms.len(),
{
    if ms.len() == 0 {
        Some(acc)
    } else if acc.contains(ms[0]) {
        None
    } else {
        append_matches(acc.push(ms[0]), ms.drop_first())
    }
}

/// The outcome of resolving a token list against the live inventory.
pub enum Resolution {
    /// Every token resolved; the selected names, in token order and, within
    /// one pattern token, in inventory order.
    Resolved(Seq<Seq<char>>),
    /// A literal token that is not a live service name.
    ServiceNotFound(Seq<char>),
    /// A pattern token that selects no live name.
    NoServicesMatched(Seq<char>),
    /// A live name selected by two tokens, or twice by one pattern.
    DuplicateSelection,
}

/// Resolves the remaining tokens, the already-selected names in `acc`.
pub open spec fn resolve_from(
    tokens: Seq<Seq<char>>,
    live: Seq<Seq<char>>,
    acc: Seq<Seq<char>>,
) -> Resolution
    decreases tokens.len(),
{
    if tokens.len() == 0 {
        Resolution::Resolved(acc)
    } else {
        let t = tokens[0];
        if is_pattern_spec(t) {
            let ms = pattern_matches(live, t);
            if ms.len() == 0 {
                Resolution::NoServicesMatched(t)
            } else {
                match append_matches(acc, ms) {
                    None => Resolution::DuplicateSelection,
                    Some(acc2) => resolve_from(tokens.drop_first(), live, acc2),
                }
            }
        } else {
            if !live.contains(t) {
                Resolution::ServiceNotFound(t)
            } else if acc.contains(t) {
                Resolution::DuplicateSelection
            } else {
                resolve_from(tokens.drop_first(), live, acc.push(t))
            }
        }
    }
}

/// Resolves the configured tokens against the live service inventory.
pub open spec fn resolve(tokens: Seq<Seq<char>>, live: Seq<Seq<char>>) -> Resolution {
    resolve_from(tokens, live, Seq::empty())
}

/// The message reported for a literal token with no live service.
pub open spec fn msg_service_not_found(token: Seq<char>) -> Seq<char> {
    "Configuration error: service "@ + token + " does not exist"@
}

/// The message reported for a pattern token selecting no live name.
pub open spec fn msg_no_services_match(token: Seq<char>) -> Seq<char> {
    "Configuration error: no services match pattern "@ + token
}

/// The message reported when a live name is selected twice.
pub open spec fn msg_duplicate_selection() -> Seq<char> {
    "Configuration error: service name cannot be used multiple times"@
}

proof fn lemma_append_matches_snoc(acc: Seq<Seq<char>>, s: Seq<Seq<char>>, x: Seq<char>)
    ensures
        append_matches(acc, s.push(x)) == (match append_matches(acc, s) {
            None => None::<Seq<Seq<char>>>,
            Some(a) => if a.contains(x) {
                None::<Seq<Seq<char>>>
            } else {
                Some(a.push(x))
            },
        }),
    decreases s.len(),
{
    if s.len() == 0 {
        assert(s.push(x)[0] == x);
        assert(s.push(x).drop_first() =~= Seq::<Seq<char>>::empty());
        assert(append_matches(acc, s) == Some(acc));
        if acc.contains(x) {
            assert(append_matches(acc, s.push(x)) is None);
        } else {
            assert(append_matches(acc, s.push(x)) == append_matches(
                acc.push(x),
                Seq::<Seq<char>>::empty(),
            ));
            assert(append_matches(acc.push(x), Seq::<Seq<char>>::empty()) == Some(acc.push(x)));
        }
    } else {
        assert(s.push(x)[0] == s[0]);
        assert(s.push(x).drop_first() =~= s.drop_first().push(x));
        if acc.contains(s[0]) {
            assert(append_matches(acc, s) is None);
            assert(append_matches(acc, s.push(x)) is None);
        } else {
            assert(append_matches(acc, s.push(x)) == append_matches(
                acc.push(s[0]),
                s.drop_first().push(x),
            ));
            assert(append_matches(acc, s) == append_matches(acc.push(s[0]), s.drop_first()));
            lemma_append_matches_snoc(acc.push(s[0]), s.drop_first(), x);
        }
    }
}

proof fn lemma_append_matches_none_absorbs(
    acc: Seq<Seq<char>>,
    s1: Seq<Seq<char>>,
    s2: Seq<Seq<char>>,
)
    requires
        append_matches(acc, s1) is None,
    ensures
        append_matches(acc, s1 + s2) is None,
    decreases s1.len(),
{
    assert(s1.len() > 0);
    assert((s1 + s2)[0] == s1[0]);
    assert((s1 + s2).len() > 0);
    if acc.contains(s1[0]) {
    } else {
        assert((s1 + s2).drop_first() =~= s1.drop_first() + s2);
        lemma_append_matches_none_absorbs(acc.push(s1[0]), s1.drop_first(), s2);
    }
}

/// No name occurs twice in the sequence.
pub open spec fn distinct_names(s: Seq<Seq<char>>) -> bool {
    forall|i: int, j: int| 0 <= i < j < s.len() ==> s[i] != s[j]
}

/// The names one token selects from the live inventory: a pattern token its
/// matches, a literal token its own name.
pub open spec fn expansion(token: Seq<char>, live: Seq<Seq<char>>) -> Seq<Seq<char>> {
    if is_pattern_spec(token) {
        pattern_matches(live, token)
    } else {
        seq![token]
    }
}

/// All names the token list selects, in token order.
pub open spec fn selected(tokens: Seq<Seq<char>>, live: Seq<Seq<char>>) -> Seq<Seq<char>>
    decreases tokens.len(),
{
    if tokens.len() == 0 {
        Seq::empty()
    } else {
        expansion(tokens[0], live) + selected(tokens.drop_first(), live)
    }
}

proof fn lemma_append_matches_some(acc: Seq<Seq<char>>, ms: Seq<Seq<char>>)
    requires
        append_matches(acc, ms) is Some,
    ensures
        append_matches(acc, ms) == Some(acc + ms),
        distinct_names(acc) ==> distinct_names(acc + ms),
    decreases ms.len(),
{
    if ms.len() == 0 {
        assert(acc + ms =~= acc);
    } else {
        assert(!acc.contains(ms[0]));
        lemma_append_matches_some(acc.push(ms[0]), ms.drop_first());
        assert(acc.push(ms[0]) + ms.drop_first() =~= acc + ms);
        if distinct_names(acc) {
            assert forall|i: int, j: int|
                0 <= i < j < acc.push(ms[0]).len() implies acc.push(ms[0])[i] != acc.push(
                ms[0],
            )[j] by {
                if j == acc.len() {
                    assert(acc[i] == acc.push(ms[0])[i]);
                    if acc.push(ms[0])[i] == ms[0] {
                        assert(acc.contains(ms[0]));
                    }
                }
            }
        }
    }
}

/// Law: when resolution succeeds, it has honoured every token: each literal
/// token names a live service and stands in the result, each pattern token
/// matched at least one live name, the result is exactly the concatenation
/// of every token's selection, and no name was selected twice.
pub proof fn lemma_resolved_properties(
    tokens: Seq<Seq<char>>,
    live: Seq<Seq<char>>,
    acc: Seq<Seq<char>>,
)
    ensures
        resolve_from(tokens, live, acc) matches Resolution::Resolved(names) ==> {
            &&& names == acc + selected(tokens, live)
            &&& (distinct_names(acc) ==> distinct_names(names))
            &&& forall|i: int|
                0 <= i < tokens.len() && !is_pattern_spec(tokens[i]) ==> live.contains(
                    tokens[i],
                ) && names.contains(tokens[i])
            &&& forall|i: int|
                0 <= i < tokens.len() && is_pattern_spec(tokens[i]) ==> pattern_matches(
                    live,
                    tokens[i],
                ).len() > 0
        },
    decreases tokens.len(),
{
    let r = resolve_from(tokens, live, acc);
    if r is Resolved {
        let names = r->Resolved_0;
        if tokens.len() == 0 {
            assert(names == acc);
            assert(names =~= acc + selected(tokens, live));
        } else {
            let t = tokens[0];
            let rest = tokens.drop_first();
            lemma_resolved_properties(rest, live, acc2_of(tokens, live, acc));
            let acc2 = acc2_of(tokens, live, acc);
            if is_pattern_spec(t) {
                let ms = pattern_matches(live, t);
                assert(ms.len() > 0);
                assert(append_matches(acc, ms) is Some);
                lemma_append_matches_some(acc, ms);
                assert(acc2 == acc + ms);
                assert(names == acc2 + selected(rest, live));
                assert(names =~= acc + (ms + selected(rest, live)));
                assert(selected(tokens, live) == ms + selected(rest, live));
            } else {
                assert(live.contains(t));
                assert(!acc.contains(t));
                assert(acc2 == acc.push(t));
                if distinct_names(acc) {
                    assert forall|i: int, j: int|
                        0 <= i < j < acc2.len() implies acc2[i] != acc2[j] by {
                        if j == acc.len() {
                            assert(acc[i] == acc2[i]);
                            if acc2[i] == t {
                                assert(acc.contains(t));
                            }
                        }
                    }
                }
                assert(names == acc2 + selected(rest, live));
                assert(acc2.is_prefix_of(names)) by {
                    assert(names.take(acc2.len() as int) =~= acc2);
                }
                assert(acc2[acc.len() as int] == t);
                assert(names[acc.len() as int] == t);
                assert(names.contains(t));
                assert(acc.push(t) + selected(rest, live) =~= acc + (seq![t] + selected(
                    rest,
                    live,
                )));
                assert(selected(tokens, live) == seq![t] + selected(rest, live));
            }
            assert forall|i: int|
                0 <= i < tokens.len() && !is_pattern_spec(tokens[i]) implies live.contains(
                tokens[i],
            ) && names.contains(tokens[i]) by {
                if i > 0 {
                    assert(rest[i - 1] == tokens[i]);
                }
            }
            assert forall|i: int|
                0 <= i < tokens.len() && is_pattern_spec(tokens[i]) implies pattern_matches(
                live,
                tokens[i],
            ).len() > 0 by {
                if i > 0 {
                    assert(rest[i - 1] == tokens[i]);
                }
            }
        }
    }
}

/// The accumulator after the first token has been processed, on the paths
/// where resolution continues.
spec fn acc2_of(tokens: Seq<Seq<char>>, live: Seq<Seq<char>>, acc: Seq<Seq<char>>) -> Seq<
    Seq<char>,
> {
    let t = tokens[0];
    if is_pattern_spec(t) {
        match append_matches(acc, pattern_matches(live, t)) {
            Some(a) => a,
            None => acc,
        }
    } else {
        acc.push(t)
    }
}

proof fn lemma_wellbehaved_outcome(
    tokens: Seq<Seq<char>>,
    live: Seq<Seq<char>>,
    acc: Seq<Seq<char>>,
)
    requires
        forall|k: int|
            0 <= k < tokens.len() && !is_pattern_spec(#[trigger] tokens[k]) ==> live.contains(
                tokens[k],
            ),
        forall|k: int|
            0 <= k < tokens.len() && is_pattern_spec(#[trigger] tokens[k]) ==> pattern_matches(
                live,
                tokens[k],
            ).len() > 0,
    ensures
        resolve_from(tokens, live, acc) is Resolved || resolve_from(
            tokens,
            live,
            acc,
        ) is DuplicateSelection,
    decreases tokens.len(),
{
    if tokens.len() > 0 {
        let t = tokens[0];
        let rest = tokens.drop_first();
        assert forall|k: int| 0 <= k < rest.len() implies #[trigger] rest[k] == tokens[k + 1] by {}
        if is_pattern_spec(t) {
            match append_matches(acc, pattern_matches(live, t)) {
                None => {},
                Some(acc2) => {
                    lemma_wellbehaved_outcome(rest, live, acc2);
                },
            }
        } else {
            if !acc.contains(t) {
                lemma_wellbehaved_outcome(rest, live, acc.push(t));
            }
        }
    }
}

proof fn lemma_selected_contains_expansion(
    tokens: Seq<Seq<char>>,
    live: Seq<Seq<char>>,
    j: int,
    m: Seq<char>,
)
    requires
        0 <= j < tokens.len(),
        expansion(tokens[j], live).contains(m),
    ensures
        selected(tokens, live).contains(m),
    decreases j,
{
    let chunk = expansion(tokens[0], live);
    let rest = tokens.drop_first();
    if j == 0 {
        let k = choose|k: int| 0 <= k < chunk.len() && chunk[k] == m;
        assert(selected(tokens, live)[k] == m);
    } else {
        assert(rest[j - 1] == tokens[j]);
        lemma_selected_contains_expansion(rest, live, j - 1, m);
        let k = choose|k: int|
            0 <= k < selected(rest, live).len() && selected(rest, live)[k] == m;
        assert(selected(tokens, live)[chunk.len() + k] == m);
    }
}

proof fn lemma_not_distinct_cons(chunk: Seq<Seq<char>>, rest: Seq<Seq<char>>)
    requires
        !distinct_names(rest),
    ensures
        !distinct_names(chunk + rest),
{
    let (i, j) = choose|i: int, j: int|
        0 <= i < j < rest.len() && rest[i] == rest[j];
    assert((chunk + rest)[chunk.len() + i] == rest[i]);
    assert((chunk + rest)[chunk.len() + j] == rest[j]);
}

proof fn lemma_two_tokens_not_distinct(
    tokens: Seq<Seq<char>>,
    live: Seq<Seq<char>>,
    i: int,
    j: int,
    m: Seq<char>,
)
    requires
        0 <= i < j < tokens.len(),
        expansion(tokens[i], live).contains(m),
        expansion(tokens[j], live).contains(m),
    ensures
        !distinct_names(selected(tokens, live)),
    decreases i,
{
    let chunk = expansion(tokens[0], live);
    let rest = tokens.drop_first();
    if i == 0 {
        let k1 = choose|k: int| 0 <= k < chunk.len() && chunk[k] == m;
        assert(rest[j - 1] == tokens[j]);
        lemma_selected_contains_expansion(rest, live, j - 1, m);
        let k2 = choose|k: int|
            0 <= k < selected(rest, live).len() && selected(rest, live)[k] == m;
        let s = selected(tokens, live);
        assert(s[k1] == m);
        assert(s[chunk.len() + k2] == m);
        assert(!distinct_names(s)) by {
            assert(0 <= k1 < chunk.len() + k2 < s.len() && s[k1] == s[chunk.len() + k2]);
        }
    } else {
        assert(rest[i - 1] == tokens[i]);
        assert(rest[j - 1] == tokens[j]);
        lemma_two_tokens_not_distinct(rest, live, i - 1, j - 1, m);
        lemma_not_distinct_cons(chunk, selected(rest, live));
    }
}

/// Law: when every literal token names a live service and every pattern
/// token matches at least one live name, yet two tokens select the same
/// live name, resolution fails with the duplicate-selection error.
pub proof fn lemma_duplicate_selection_fails(
    tokens: Seq<Seq<char>>,
    live: Seq<Seq<char>>,
    i: int,
    j: int,
    m: Seq<char>,
)
    requires
        forall|k: int|
            0 <= k < tokens.len() && !is_pattern_spec(#[trigger] tokens[k]) ==> live.contains(
                tokens[k],
            ),
        forall|k: int|
            0 <= k < tokens.len() && is_pattern_spec(#[trigger] tokens[k]) ==> pattern_matches(
                live,
                tokens[k],
            ).len() > 0,
        0 <= i < j < tokens.len(),
        expansion(tokens[i], live).contains(m),
        expansion(tokens[j], live).contains(m),
    ensures
        resolve(tokens, live) == Resolution::DuplicateSelection,
{
    lemma_wellbehaved_outcome(tokens, live, Seq::empty());
    let r = resolve(tokens, live);
    if r is Resolved {
        lemma_resolved_properties(tokens, live, Seq::empty());
        let names = r->Resolved_0;
        assert(names =~= selected(tokens, live));
        lemma_two_tokens_not_distinct(tokens, live, i, j, m);
        assert(false);
    }
}

proof fn lemma_append_matches_of_distinct(acc: Seq<Seq<char>>, ms: Seq<Seq<char>>)
    requires
        distinct_names(acc + ms),
    ensures
        append_matches(acc, ms) == Some(acc + ms),
    decreases ms.len(),
{
    if ms.len() == 0 {
        assert(acc + ms =~= acc);
    } else {
        assert((acc + ms)[acc.len() as int] == ms[0]);
        if acc.contains(ms[0]) {
            let w = choose|w: int| 0 <= w < acc.len() && acc[w] == ms[0];
            assert((acc + ms)[w] == ms[0]);
            assert(false);
        }
        assert(acc.push(ms[0]) + ms.drop_first() =~= acc + ms);
        lemma_append_matches_of_distinct(acc.push(ms[0]), ms.drop_first());
    }
}

/// Law: when every token before position `i` is satisfiable and selects no
/// name twice, a pattern token at `i` that matches no live name fails the
/// whole resolution with the no-services-matched error for that token.
pub proof fn lemma_no_match_fails(tokens: Seq<Seq<char>>, live: Seq<Seq<char>>, i: int)
    requires
        0 <= i < tokens.len(),
        forall|k: int|
            0 <= k < i && !is_pattern_spec(#[trigger] tokens[k]) ==> live.contains(tokens[k]),
        forall|k: int|
            0 <= k < i && is_pattern_spec(#[trigger] tokens[k]) ==> pattern_matches(
                live,
                tokens[k],
            ).len() > 0,
        is_pattern_spec(tokens[i]),
        pattern_matches(live, tokens[i]).len() == 0,
        distinct_names(selected(tokens.take(i), live)),
    ensures
        resolve(tokens, live) == Resolution::NoServicesMatched(tokens[i]),
{
    assert(Seq::<Seq<char>>::empty() + selected(tokens.take(i), live) =~= selected(
        tokens.take(i),
        live,
    ));
    lemma_no_match_fails_from(tokens, live, Seq::empty(), i);
}

proof fn lemma_no_match_fails_from(
    tokens: Seq<Seq<char>>,
    live: Seq<Seq<char>>,
    acc: Seq<Seq<char>>,
    i: int,
)
    requires
        0 <= i < tokens.len(),
        forall|k: int|
            0 <= k < i && !is_pattern_spec(#[trigger] tokens[k]) ==> live.contains(tokens[k]),
        forall|k: int|
            0 <= k < i && is_pattern_spec(#[trigger] tokens[k]) ==> pattern_matches(
                live,
                tokens[k],
            ).len() > 0,
        is_pattern_spec(tokens[i]),
        pattern_matches(live, tokens[i]).len() == 0,
        distinct_names(acc + selected(tokens.take(i), live)),
    ensures
        resolve_from(tokens, live, acc) == Resolution::NoServicesMatched(tokens[i]),
    decreases i,
{
    let t = tokens[0];
    let rest = tokens.drop_first();
    if i == 0 {
    } else {
        assert(tokens.take(i)[0] == t);
        assert(tokens.take(i).drop_first() =~= rest.take(i - 1));
        assert(selected(tokens.take(i), live) == expansion(t, live) + selected(
            rest.take(i - 1),
            live,
        ));
        assert forall|k: int| 0 <= k < rest.len() implies #[trigger] rest[k] == tokens[k + 1] by {}
        if is_pattern_spec(t) {
            let ms = pattern_matches(live, t);
            assert(ms.len() > 0);
            assert(expansion(t, live) == ms);
            assert(acc + (ms + selected(rest.take(i - 1), live)) =~= (acc + ms) + selected(
                rest.take(i - 1),
                live,
            ));
            assert forall|a: int, b: int|
                0 <= a < b < (acc + ms).len() implies (acc + ms)[a] != (acc + ms)[b] by {
                let whole = (acc + ms) + selected(rest.take(i - 1), live);
                assert(whole[a] == (acc + ms)[a]);
                assert(whole[b] == (acc + ms)[b]);
            }
            lemma_append_matches_of_distinct(acc, ms);
            lemma_no_match_fails_from(rest, live, acc + ms, i - 1);
        } else {
            assert(live.contains(t));
            assert(expansion(t, live) == seq![t]);
            assert(acc + (seq![t] + selected(rest.take(i - 1), live)) =~= acc.push(t) + selected(
                rest.take(i - 1),
                live,
            ));
            if acc.contains(t) {
                let w = choose|w: int| 0 <= w < acc.len() && acc[w] == t;
                let whole = acc.push(t) + selected(rest.take(i - 1), live);
                assert(whole[w] == t);
                assert(whole[acc.len() as int] == t);
                assert(false);
            }
            lemma_no_match_fails_from(rest, live, acc.push(t), i - 1);
        }
    }
}

/// The position of the first line break in `s`, scanning from `i`; the
/// length of `s` when there is none.
pub open spec fn first_nl_from(s: Seq<char>, i: int) -> int
    decreases s.len() - i,
{
    if i < 0 || i >= s.len() {
        s.len() as int
    } else if s[i] == '\n' {
        i
    } else {
        first_nl_from(s, i + 1)
    }
}

/// The lines of `s`, split at line breaks; an empty `s` has none.
pub open spec fn lines_of(s: Seq<char>) -> Seq<Seq<char>>
    decreases s.len(),
    via lines_of_decreases
{
    if s.len() == 0 {
        Seq::empty()
    } else {
        let p = first_nl_from(s, 0);
        if p == s.len() {
            seq![s]
        } else {
            seq![s.take(p)] + lines_of(s.skip(p + 1))
        }
    }
}

proof fn lemma_first_nl_bounds(s: Seq<char>, i: int)
    requires
        0 <= i <= s.len(),
    ensures
        i <= first_nl_from(s, i) <= s.len(),
    decreases s.len() - i,
{
    if i < s.len() && s[i] != '\n' {
        lemma_first_nl_bounds(s, i + 1);
    }
}

#[via_fn]
proof fn lines_of_decreases(s: Seq<char>) {
    if s.len() > 0 {
        lemma_first_nl_bounds(s, 0);
    }
}

/// The non-empty line.
pub open spec fn nonempty_line() -> spec_fn(Seq<char>) -> bool {
    |l: Seq<char>| l.len() > 0
}

/// The service names in the orchestrator's listing output: one name per
/// line, empty lines dropped.
pub open spec fn service_lines(s: Seq<char>) -> Seq<Seq<char>> {
    lines_of(s).filter(nonempty_line())
}

proof fn lemma_first_nl_step(s: Seq<char>, k: int, i: int)
    requires
        0 <= k <= i <= s.len(),
        forall|j: int| k <= j < i ==> s[j] != '\n',
    ensures
        first_nl_from(s, k) == first_nl_from(s, i),
    decreases i - k,
{
    if k < i {
        lemma_first_nl_step(s, k + 1, i);
    }
}

/// Splits the orchestrator's listing output into the live service names,
/// one per line, dropping empty lines.
pub fn parse_service_list(raw: &str) -> (r: Vec<String>)
    ensures
        r.deep_view() == service_lines(raw@),
{
    let chars = chars_of(raw);
    let n = chars.len();
    let mut out: Vec<String> = Vec::new();
    let mut start: usize = 0;
    let mut i: usize = 0;
    proof {
        assert(out.deep_view() =~= Seq::<Seq<char>>::empty());
        assert(raw@.skip(0) =~= raw@);
    }
    while i < n
        invariant
            start <= i <= n,
            n == chars@.len(),
            chars@ == raw@,
            forall|j: int| start <= j < i ==> raw@[j] != '\n',
            service_lines(raw@) == out.deep_view() + lines_of(raw@.skip(start as int)).filter(
                nonempty_line(),
            ),
        decreases n - i,
    {
        if chars[i] == '\n' {
            let ghost tail = raw@.skip(start as int);
            proof {
                assert(tail.len() == n - start);
                assert forall|j: int| 0 <= j < i - start implies tail[j] != '\n' by {
                    assert(tail[j] == raw@[start + j]);
                }
                assert(tail[i - start] == '\n');
                lemma_first_nl_step(tail, 0, i - start);
                assert(first_nl_from(tail, 0) == i - start);
                assert(tail.take(i - start) =~= raw@.subrange(start as int, i as int));
                assert(tail.skip(i - start + 1) =~= raw@.skip(i as int + 1));
                assert(lines_of(tail) == seq![raw@.subrange(start as int, i as int)] + lines_of(
                    raw@.skip(i as int + 1),
                ));
                Seq::filter_distributes_over_add(
                    seq![raw@.subrange(start as int, i as int)],
                    lines_of(raw@.skip(i as int + 1)),
                    nonempty_line(),
                );
                reveal(Seq::filter);
                assert(seq![raw@.subrange(start as int, i as int)].drop_last()
                    =~= Seq::<Seq<char>>::empty());
            }
            if i > start {
                let segment = raw.substring_char(start, i).to_owned();
                let ghost pre = out.deep_view();
                proof {
                    assert(segment@ == raw@.subrange(start as int, i as int));
                    assert(segment@.len() > 0);
                }
                out.push(segment);
                proof {
                    assert(out.deep_view() =~= pre.push(raw@.subrange(start as int, i as int)));
                    assert(seq![raw@.subrange(start as int, i as int)].filter(nonempty_line())
                        =~= seq![raw@.subrange(start as int, i as int)]);
                }
            } else {
                proof {
                    reveal(Seq::filter);
                    let s1 = seq![raw@.subrange(start as int, i as int)];
                    assert(s1.len() == 1);
                    assert(s1.drop_last() =~= Seq::<Seq<char>>::empty());
                    assert(Seq::<Seq<char>>::empty().filter(nonempty_line())
                        =~= Seq::<Seq<char>>::empty());
                    assert(s1.last() == raw@.subrange(start as int, i as int));
                    assert(s1.last().len() == 0);
                    assert(!nonempty_line()(s1.last()));
                    assert(s1.filter(nonempty_line()) =~= Seq::<Seq<char>>::empty());
                    assert(out.deep_view() + Seq::<Seq<char>>::empty() =~= out.deep_view());
                }
            }
            proof {
                assert(out.deep_view() + lines_of(raw@.skip(i as int + 1)).filter(
                    nonempty_line(),
                ) =~= service_lines(raw@)) by {
                    assert(seq![raw@.subrange(start as int, i as int)].filter(nonempty_line())
                        + lines_of(raw@.skip(i as int + 1)).filter(nonempty_line())
                        == lines_of(raw@.skip(start as int)).filter(nonempty_line()));
                }
            }
            start = i + 1;
        }
        i += 1;
    }
    let ghost tail = raw@.skip(start as int);
    proof {
        assert forall|j: int| 0 <= j < tail.len() implies tail[j] != '\n' by {
            assert(tail[j] == raw@[start + j]);
        }
        lemma_first_nl_step(tail, 0, tail.len() as int);
        reveal(Seq::filter);
    }
    if start < n {
        let segment = raw.substring_char(start, n).to_owned();
        let ghost pre = out.deep_view();
        proof {
            assert(segment@ == raw@.subrange(start as int, n as int));
            assert(segment@ =~= tail);
            assert(tail.len() > 0);
            assert(lines_of(tail) == seq![tail]);
            assert(seq![tail].drop_last() =~= Seq::<Seq<char>>::empty());
            assert(seq![tail].filter(nonempty_line()) =~= seq![tail]);
        }
        out.push(segment);
        proof {
            assert(out.deep_view() =~= pre.push(tail));
            assert(out.deep_view() =~= pre + seq![tail]);
        }
    } else {
        proof {
            assert(tail.len() == 0);
            assert(lines_of(tail).filter(nonempty_line()) =~= Seq::<Seq<char>>::empty());
            assert(out.deep_view() + Seq::<Seq<char>>::empty() =~= out.deep_view());
        }
    }
    out
}

/// Whether some element of `v` views to `s`'s characters.
fn vec_contains_string(v: &Vec<String>, s: &String) -> (r: bool)
    ensures
        r == v.deep_view().contains(s@),
{
    let n = v.len();
    let mut i: usize = 0;
    while i < n
        invariant
            i <= n,
            n == v@.len(),
            forall|j: int| 0 <= j < i ==> v.deep_view()[j] != s@,
        decreases n - i,
    {
        if v[i] == *s {
            proof {
                assert(v.deep_view()[i as int] == s@);
            }
            return true;
        }
        i += 1;
    }
    proof {
        if v.deep_view().contains(s@) {
            let w = choose|w: int| 0 <= w < v.deep_view().len() && v.deep_view()[w] == s@;
        }
    }
    false
}

/// Resolves the watcher's configured tokens against the live inventory,
/// following the resolution rules of [`resolve`]: a literal token selects
/// exactly its own name, a pattern token selects every non-empty live name
/// it matches (in inventory order), and no name may be selected twice.
pub fn match_services(watcher: &Watcher, docker_service_names: Vec<String>) -> (r: Result<
    Vec<String>,
    Error,
>)
    ensures
        match resolve(watcher.docker_services.deep_view(), docker_service_names.deep_view()) {
            Resolution::Resolved(names) => r matches Ok(v) && v.deep_view() == names,
            Resolution::ServiceNotFound(t) => r matches Err(e) && e@ == msg_service_not_found(t),
            Resolution::NoServicesMatched(t) => r matches Err(e) && e@ == msg_no_services_match(
                t,
            ),
            Resolution::DuplicateSelection => r matches Err(e) && e@
                == msg_duplicate_selection(),
        },
{
    let ghost tokens_dv = watcher.docker_services.deep_view();
    let ghost live_dv = docker_service_names.deep_view();
    let mut services: Vec<String> = Vec::new();
    let tn = watcher.docker_services.len();
    proof {
        assert(tokens_dv.skip(0) =~= tokens_dv);
        assert(services.deep_view() =~= Seq::<Seq<char>>::empty());
    }
    let mut ti: usize = 0;
    while ti < tn
        invariant
            ti <= tn,
            tn == tokens_dv.len(),
            tokens_dv == watcher.docker_services.deep_view(),
            live_dv == docker_service_names.deep_view(),
            resolve(tokens_dv, live_dv) == resolve_from(
                tokens_dv.skip(ti as int),
                live_dv,
                services.deep_view(),
            ),
        decreases tn - ti,
    {
        let token = &watcher.docker_services[ti];
        let ghost t = tokens_dv[ti as int];
        proof {
            assert(token@ == t);
            assert(tokens_dv.skip(ti as int)[0] == t);
            assert(tokens_dv.skip(ti as int).drop_first() =~= tokens_dv.skip(ti as int + 1));
        }
        if is_pattern(token.as_str()) {
            let ghost acc0 = services.deep_view();
            let ln = docker_service_names.len();
            let mut count: usize = 0;
            let mut ni: usize = 0;
            while ni < ln
                invariant
                    ni <= ln,
                    ti < tn,
                    tn == tokens_dv.len(),
                    ln == live_dv.len(),
                    tokens_dv == watcher.docker_services.deep_view(),
                    live_dv == docker_service_names.deep_view(),
                    t == tokens_dv[ti as int],
                    token@ == t,
                    is_pattern_spec(t),
                    resolve(tokens_dv, live_dv) == resolve_from(
                        tokens_dv.skip(ti as int),
                        live_dv,
                        acc0,
                    ),
                    count == live_dv.take(ni as int).filter(match_pred(t)).len(),
                    append_matches(acc0, live_dv.take(ni as int).filter(match_pred(t)))
                        == Some(services.deep_view()),
                decreases ln - ni,
            {
                let name = &docker_service_names[ni];
                let ghost ms_pre = live_dv.take(ni as int).filter(match_pred(t));
                proof {
                    assert(name@ == live_dv[ni as int]);
                    assert(live_dv.take(ni as int + 1).drop_last() =~= live_dv.take(ni as int));
                    assert(live_dv.take(ni as int + 1).last() == live_dv[ni as int]);
                    reveal(Seq::filter);
                }
                if !name.as_str().is_empty() && is_match(name.as_str(), token.as_str()) {
                    proof {
                        reveal(Seq::filter);
                        assert(match_pred(t)(live_dv[ni as int]));
                        assert(live_dv.take(ni as int + 1).filter(match_pred(t)) == ms_pre.push(
                            live_dv[ni as int],
                        ));
                        lemma_append_matches_snoc(acc0, ms_pre, live_dv[ni as int]);
                    }
                    if vec_contains_string(&services, name) {
                        proof {
                            let full = pattern_matches(live_dv, t);
                            assert(live_dv =~= live_dv.take(ni as int + 1) + live_dv.skip(
                                ni as int + 1,
                            ));
                            Seq::filter_distributes_over_add(
                                live_dv.take(ni as int + 1),
                                live_dv.skip(ni as int + 1),
                                match_pred(t),
                            );
                            lemma_append_matches_none_absorbs(
                                acc0,
                                ms_pre.push(live_dv[ni as int]),
                                live_dv.skip(ni as int + 1).filter(match_pred(t)),
                            );
                            assert(full.len() > 0);
                            assert(append_matches(acc0, full) is None);
                        }
                        return Err(
                            Error::new(
                                "Configuration error: service name cannot be used multiple times",
                            ),
                        );
                    }
                    count += 1;
                    services.push(name.clone());
                    proof {
                        assert(services.deep_view() =~= append_matches(acc0, ms_pre).unwrap().push(
                            live_dv[ni as int],
                        ));
                    }
                } else {
                    proof {
                        reveal(Seq::filter);
                        assert(!match_pred(t)(live_dv[ni as int]));
                        assert(live_dv.take(ni as int + 1).filter(match_pred(t)) == ms_pre);
                    }
                }
                ni += 1;
            }
            proof {
                assert(live_dv.take(ln as int) =~= live_dv);
            }
            if count == 0 {
                proof {
                    assert(pattern_matches(live_dv, t).len() == 0);
                }
                let mut msg = String::from_str("Configuration error: no services match pattern ");
                msg.append(token.as_str());
                return Err(Error::new(msg.as_str()));
            }
            proof {
                assert(pattern_matches(live_dv, t).len() > 0);
                assert(append_matches(acc0, pattern_matches(live_dv, t)) == Some(
                    services.deep_view(),
                ));
            }
        } else {
            if !vec_contains_string(&docker_service_names, token) {
                let mut msg = String::from_str("Configuration error: service ");
                msg.append(token.as_str());
                msg.append(" does not exist");
                return Err(Error::new(msg.as_str()));
            }
            if vec_contains_string(&services, token) {
                return Err(
                    Error::new(
                        "Configuration error: service name cannot be used multiple times",
                    ),
                );
            }
            let ghost pre = services.deep_view();
            services.push(token.clone());
            proof {
                assert(services.deep_view() =~= pre.push(t));
            }
        }
        ti += 1;
    }
    proof {
        assert(tokens_dv.skip(tn as int) =~= Seq::<Seq<char>>::empty());
    }
    Ok(services)
}

} // verus!
