use vstd::prelude::*;
use vstd::string::StringExecFns;
use vstd::string::StrSliceExecFns;
use crate::tokens::AnnotatedWord;
use crate::tokens::AnnotatedWordV;
use crate::tokens::chars_of;
use crate::tokens::string_of;
use crate::tokens::is_ws;
use crate::tokens::is_punct;
use crate::tokens::lower_char;
use crate::tokens::spec_is_ws;
use crate::tokens::spec_is_punct;
use crate::tokens::spec_lower_char;
use crate::tokens::spec_tokenize;
use crate::tokens::tokenize;
use crate::tokens::words_view;
use crate::model::Container;
use crate::model::ContainerV;
use crate::model::Entry;
use crate::model::EntryV;
use crate::model::Excerpt;
use crate::model::Index;
use crate::model::IndexV;
use crate::model::SearchResult;
use crate::model::SearchResultV;
use crate::model::aliases_view;
use crate::model::containers_view;
use crate::model::entries_view;
use crate::model::fields_view;
use crate::model::results_view;
use crate::model::spec_find_pair;
use crate::model::lemma_find_pair;
use crate::model::lemma_find_pair_is;
use crate::model::lemma_find_pair_none;

verus! {

/// One piece of the query-term splitting fold: the finished terms and the
/// piece being gathered.
pub struct TermState {
    pub out: Seq<Seq<char>>,
    pub cur: Seq<char>,
}

/// One step of query splitting: whitespace and ASCII punctuation separate
/// terms, every other character is lowercased and kept.
pub open spec fn spec_term_step(st: TermState, c: char) -> TermState {
    if spec_is_ws(c) || spec_is_punct(c) {
        if st.cur.len() == 0 {
            st
        } else {
            TermState { out: st.out.push(st.cur), cur: Seq::empty() }
        }
    } else {
        TermState { out: st.out, cur: st.cur.push(spec_lower_char(c)) }
    }
}

/// The splitting state after the first `i` characters of the query.
pub open spec fn spec_term_state(q: Seq<char>, i: int) -> TermState
    decreases i,
{
    if i <= 0 {
        TermState { out: Seq::empty(), cur: Seq::empty() }
    } else {
        spec_term_step(spec_term_state(q, i - 1), q[i - 1])
    }
}

/// The terms of a query: lowercased maximal runs free of whitespace and
/// ASCII punctuation.
pub open spec fn spec_query_terms(q: Seq<char>) -> Seq<Seq<char>> {
    let st = spec_term_state(q, q.len() as int);
    if st.cur.len() == 0 {
        st.out
    } else {
        st.out.push(st.cur)
    }
}

/// Splits a query into terms, as `spec_query_terms` says.
pub fn query_terms(q: &String) -> (r: Vec<Vec<char>>)
    ensures
        r@.map_values(|t: Vec<char>| t@) == spec_query_terms(q@),
{
    let qc = chars_of(q.as_str());
    let n = qc.len();
    let mut out: Vec<Vec<char>> = Vec::new();
    let mut cur: Vec<char> = Vec::new();
    let mut i: usize = 0;
    while i < n
        invariant
            n == qc@.len(),
            qc@ == q@,
            i <= n,
            out@.map_values(|t: Vec<char>| t@) == spec_term_state(q@, i as int).out,
            cur@ == spec_term_state(q@, i as int).cur,
        decreases n - i,
    {
        let c = qc[i];
        if is_ws(c) || is_punct(c) {
            if cur.len() > 0 {
                out.push(cur);
                cur = Vec::new();
                proof {
                    assert(out@.map_values(|t: Vec<char>| t@) =~= spec_term_state(
                        q@,
                        i + 1,
                    ).out);
                }
            }
        } else {
            cur.push(lower_char(c));
        }
        i = i + 1;
    }
    if cur.len() > 0 {
        out.push(cur);
        proof {
            assert(out@.map_values(|t: Vec<char>| t@) =~= spec_query_terms(q@));
        }
    }
    out
}

/// The Levenshtein edit distance between two character sequences.
pub open spec fn spec_lev(a: Seq<char>, b: Seq<char>) -> nat
    decreases a.len() + b.len(),
{
    if a.len() == 0 {
        b.len()
    } else if b.len() == 0 {
        a.len()
    } else {
        let cost: nat = if a[0] == b[0] {
            0
        } else {
            1
        };
        let sub = spec_lev(a.drop_first(), b.drop_first()) + cost;
        let del = spec_lev(a.drop_first(), b) + 1;
        let ins = spec_lev(a, b.drop_first()) + 1;
        if sub <= del && sub <= ins {
            sub
        } else if del <= ins {
            del
        } else {
            ins
        }
    }
}

/// The edit distance never exceeds the two lengths together.
pub proof fn lemma_lev_bound(a: Seq<char>, b: Seq<char>)
    ensures
        spec_lev(a, b) <= a.len() + b.len(),
    decreases a.len() + b.len(),
{
    if a.len() > 0 && b.len() > 0 {
        lemma_lev_bound(a.drop_first(), b.drop_first());
        lemma_lev_bound(a.drop_first(), b);
        lemma_lev_bound(a, b.drop_first());
    }
}

/// Computes the edit distance by dynamic programming over suffixes.
pub fn lev_dist(a: &Vec<char>, b: &Vec<char>) -> (r: u128)
    ensures
        r == spec_lev(a@, b@),
{
    let m = a.len();
    let n = b.len();
    let mut prev: Vec<u128> = Vec::new();
    let mut j: usize = 0;
    while j < n
        invariant
            m == a@.len(),
            n == b@.len(),
            j <= n,
            prev@.len() == j,
            forall|jj: int| 0 <= jj < j ==> prev@[jj] == spec_lev(a@.skip(m as int), b@.skip(jj)),
        decreases n - j,
    {
        proof {
            assert(a@.skip(m as int) =~= Seq::<char>::empty());
            assert(b@.skip(j as int).len() == n - j);
        }
        prev.push((n - j) as u128);
        j = j + 1;
    }
    proof {
        assert(a@.skip(m as int) =~= Seq::<char>::empty());
        assert(b@.skip(n as int) =~= Seq::<char>::empty());
    }
    prev.push(0);
    let mut i: usize = m;
    while i > 0
        invariant
            m == a@.len(),
            n == b@.len(),
            i <= m,
            prev@.len() == n + 1,
            forall|jj: int| 0 <= jj <= n ==> prev@[jj] == spec_lev(a@.skip(i as int), b@.skip(jj)),
        decreases i,
    {
        let ii = i - 1;
        let mut cur: Vec<u128> = Vec::new();
        let mut k: usize = 0;
        while k < n
            invariant
                k <= n,
                cur@.len() == k,
            decreases n - k,
        {
            cur.push(0);
            k = k + 1;
        }
        proof {
            assert(a@.skip(ii as int).len() == m - ii);
            assert(b@.skip(n as int) =~= Seq::<char>::empty());
        }
        cur.push((m - ii) as u128);
        let mut jr: usize = n;
        while jr > 0
            invariant
                m == a@.len(),
                n == b@.len(),
                ii < m,
                jr <= n,
                cur@.len() == n + 1,
                prev@.len() == n + 1,
                forall|jj: int| 0 <= jj <= n ==> prev@[jj] == spec_lev(
                    a@.skip(ii + 1),
                    b@.skip(jj),
                ),
                forall|jj: int| jr <= jj <= n ==> cur@[jj] == spec_lev(
                    a@.skip(ii as int),
                    b@.skip(jj),
                ),
        decreases jr,
        {
            let jj = jr - 1;
            proof {
                lemma_lev_bound(a@.skip(ii + 1), b@.skip(jj + 1));
                lemma_lev_bound(a@.skip(ii + 1), b@.skip(jj as int));
                lemma_lev_bound(a@.skip(ii as int), b@.skip(jj + 1));
            }
            let cost: u128 = if a[ii] == b[jj] {
                0
            } else {
                1
            };
            let sub = prev[jj + 1] + cost;
            let del = prev[jj] + 1;
            let ins = cur[jj + 1] + 1;
            let d = if sub <= del && sub <= ins {
                sub
            } else if del <= ins {
                del
            } else {
                ins
            };
            proof {
                let sa = a@.skip(ii as int);
                let sb = b@.skip(jj as int);
                assert(sa[0] == a@[ii as int]);
                assert(sb[0] == b@[jj as int]);
                assert(sa.drop_first() =~= a@.skip(ii + 1));
                assert(sb.drop_first() =~= b@.skip(jj + 1));
                assert(sa.len() > 0 && sb.len() > 0);
            }
            cur.set(jj, d);
            jr = jr - 1;
        }
        prev = cur;
        i = i - 1;
    }
    proof {
        assert(a@.skip(0) =~= a@);
        assert(b@.skip(0) =~= b@);
    }
    prev[0]
}

/// One surviving match of a query term: the entry, the excerpts of the
/// container that matched, and the match quality in 1/1024 units.
#[verifier::ext_equal]
pub struct TermMatch {
    pub entry: usize,
    pub excerpts: Seq<Excerpt>,
    pub quality: u32,
}

/// The matches a container's results contribute at one quality.
pub open spec fn spec_results_matches(rs: Seq<(usize, SearchResultV)>, quality: u32) -> Seq<
    TermMatch,
> {
    rs.map_values(|p: (usize, SearchResultV)| TermMatch {
        entry: p.0,
        excerpts: p.1.excerpts,
        quality,
    })
}

/// The exact and alias matches of one term: the term's own container at
/// quality one, then each alias target at the alias similarity, capped at
/// quality one.
pub open spec fn spec_direct_matches(cs: Seq<(Seq<char>, ContainerV)>, t: Seq<char>) -> Seq<
    TermMatch,
> {
    let ti = spec_find_pair(cs, t);
    if ti < 0 {
        Seq::empty()
    } else {
        let c = cs[ti].1;
        spec_results_matches(c.results, 1024) + spec_alias_matches(cs, c.aliases, c.aliases.len() as int)
    }
}

/// The matches contributed by the first `k` aliases of a container.
pub open spec fn spec_alias_matches(
    cs: Seq<(Seq<char>, ContainerV)>,
    al: Seq<(Seq<char>, u32)>,
    k: int,
) -> Seq<TermMatch>
    decreases k,
{
    if k <= 0 {
        Seq::empty()
    } else {
        let prev = spec_alias_matches(cs, al, k - 1);
        let ti = spec_find_pair(cs, al[k - 1].0);
        if ti < 0 {
            prev
        } else {
            let q = if al[k - 1].1 > 1024 {
                1024u32
            } else {
                al[k - 1].1
            };
            prev + spec_results_matches(cs[ti].1.results, q)
        }
    }
}

/// The fuzzy quality of a key at distance `d` from a term of length `len`.
pub open spec fn spec_fuzzy_quality(len: nat, d: nat) -> u32 {
    (((len - d) * 1024) / len as int) as u32
}

/// The fuzzy matches of one term among the first `k` containers: keys within
/// the distance allowance contribute their results.
pub open spec fn spec_fuzzy_matches(cs: Seq<(Seq<char>, ContainerV)>, t: Seq<char>, k: int) -> Seq<
    TermMatch,
>
    decreases k,
{
    if k <= 0 {
        Seq::empty()
    } else {
        let prev = spec_fuzzy_matches(cs, t, k - 1);
        let d = spec_lev(t, cs[k - 1].0);
        if d <= t.len() / 6 + 1 {
            prev + spec_results_matches(cs[k - 1].1.results, spec_fuzzy_quality(t.len(), d))
        } else {
            prev
        }
    }
}

/// Every match of one term: its container and aliases; when those yield
/// nothing and the term has at least three characters, the fuzzy fallback.
pub open spec fn spec_term_matches(cs: Seq<(Seq<char>, ContainerV)>, t: Seq<char>) -> Seq<
    TermMatch,
> {
    let direct = spec_direct_matches(cs, t);
    if direct.len() == 0 && t.len() >= 3 {
        spec_fuzzy_matches(cs, t, cs.len() as int)
    } else {
        direct
    }
}

/// Collects the matches a container's results contribute at one quality.
fn push_results_matches(
    out: &mut Vec<(usize, Vec<Excerpt>, u32)>,
    results: &Vec<(usize, SearchResult)>,
    quality: u32,
)
    ensures
        tm_view(final(out)@) == tm_view(old(out)@) + spec_results_matches(
            results_view(results@),
            quality,
        ),
{
    let ghost base = old(out)@.len() as int;
    let n = results.len();
    let mut i: usize = 0;
    while i < n
        invariant
            n == results@.len(),
            i <= n,
            out@.len() == base + i,
            base == old(out)@.len(),
            forall|x: int| 0 <= x < base ==> out@[x] == old(out)@[x],
            forall|x: int|
                0 <= x < i ==> (#[trigger] out@[base + x]).0 == results@[x].0 && out@[base
                    + x].1@ == results@[x].1.excerpts@ && out@[base + x].2 == quality,
        decreases n - i,
    {
        let mut excs: Vec<Excerpt> = Vec::new();
        let mut j: usize = 0;
        let m = results[i].1.excerpts.len();
        while j < m
            invariant
                i < n,
                n == results@.len(),
                m == results@[i as int].1.excerpts@.len(),
                j <= m,
                excs@ =~= results@[i as int].1.excerpts@.take(j as int),
            decreases m - j,
        {
            excs.push(results[i].1.excerpts[j]);
            j = j + 1;
        }
        proof {
            assert(excs@ =~= results@[i as int].1.excerpts@);
        }
        out.push((results[i].0, excs, quality));
        i = i + 1;
    }
    proof {
        let rv = spec_results_matches(results_view(results@), quality);
        assert forall|x: int| 0 <= x < out@.len() implies tm_view(out@)[x] == (tm_view(old(out)@)
            + rv)[x] by {
            assert(tm_view(out@)[x] == TermMatch {
                entry: out@[x].0,
                excerpts: out@[x].1@,
                quality: out@[x].2,
            });
            if x < base {
                assert(tm_view(old(out)@)[x] == TermMatch {
                    entry: old(out)@[x].0,
                    excerpts: old(out)@[x].1@,
                    quality: old(out)@[x].2,
                });
            } else {
                assert(out@[base + (x - base)].0 == results@[x - base].0);
                assert(results_view(results@)[x - base] == (
                results@[x - base].0,
                results@[x - base].1@,
                ));
                assert(rv[x - base] == TermMatch {
                    entry: results@[x - base].0,
                    excerpts: results@[x - base].1@.excerpts,
                    quality,
                });
            }
        }
        assert(tm_view(out@) =~= tm_view(old(out)@) + rv);
    }
}

/// The views of collected term matches.
pub open spec fn tm_view(s: Seq<(usize, Vec<Excerpt>, u32)>) -> Seq<TermMatch> {
    s.map_values(|p: (usize, Vec<Excerpt>, u32)| TermMatch {
        entry: p.0,
        excerpts: p.1@,
        quality: p.2,
    })
}

/// Collects every match of one term, as `spec_term_matches` says.
fn term_matches(
    containers: &Vec<(String, Container)>,
    t: &Vec<char>,
) -> (r: Vec<(usize, Vec<Excerpt>, u32)>)
    ensures
        tm_view(r@) == spec_term_matches(containers_view(containers@), t@),
{
    let ghost cv = containers_view(containers@);
    let mut out: Vec<(usize, Vec<Excerpt>, u32)> = Vec::new();
    let tstr = string_of(t);
    let n = containers.len();
    let mut ti: usize = 0;
    let mut found: bool = false;
    while ti < n && !found
        invariant
            n == containers@.len(),
            cv == containers_view(containers@),
            tstr@ == t@,
            ti <= n,
            !found ==> forall|j: int| 0 <= j < ti ==> cv[j].0 != t@,
            found ==> ti < n && cv[ti as int].0 == t@ && forall|j: int|
                0 <= j < ti ==> cv[j].0 != t@,
        decreases n - ti, if found { 0int } else { 1int },
    {
        proof {
            assert(cv[ti as int].0 == containers@[ti as int].0@);
            assert(tstr@ == t@);
        }
        if containers[ti].0 == tstr {
            proof {
                assert(cv[ti as int].0 == t@);
            }
            found = true;
        } else {
            proof {
                assert(cv[ti as int].0 != t@);
            }
            ti = ti + 1;
        }
    }
    if found {
        proof {
            lemma_find_pair_is(cv, t@, ti as int);
        }
        push_results_matches(&mut out, &containers[ti].1.results, 1024);
        let na = containers[ti].1.aliases.len();
        let mut k: usize = 0;
        while k < na
            invariant
                ti < n,
                n == containers@.len(),
                cv == containers_view(containers@),
                na == containers@[ti as int].1.aliases@.len(),
                k <= na,
                cv[ti as int].0 == t@,
                spec_find_pair(cv, t@) == ti as int,
                tm_view(out@) =~= spec_results_matches(cv[ti as int].1.results, 1024)
                    + spec_alias_matches(cv, cv[ti as int].1.aliases, k as int),
            decreases na - k,
        {
            proof {
                assert(aliases_view(containers@[ti as int].1.aliases@)[k as int] == (
                containers@[ti as int].1.aliases@[k as int].0@,
                containers@[ti as int].1.aliases@[k as int].1,
                ));
            }
            let alias_term = &containers[ti].1.aliases[k].0;
            let sim = containers[ti].1.aliases[k].1;
            let q: u32 = if sim > 1024 {
                1024
            } else {
                sim
            };
            let mut ai: usize = 0;
            let mut afound: bool = false;
            while ai < n && !afound
                invariant
                    n == containers@.len(),
                    cv == containers_view(containers@),
                    ai <= n,
                    !afound ==> forall|j: int| 0 <= j < ai ==> cv[j].0 != alias_term@,
                    afound ==> ai < n && cv[ai as int].0 == alias_term@ && forall|j: int|
                        0 <= j < ai ==> cv[j].0 != alias_term@,
                decreases n - ai, if afound { 0int } else { 1int },
            {
                proof {
                    assert(cv[ai as int].0 == containers@[ai as int].0@);
                }
                if containers[ai].0 == *alias_term {
                    afound = true;
                } else {
                    ai = ai + 1;
                }
            }
            if afound {
                proof {
                    lemma_find_pair_is(cv, alias_term@, ai as int);
                }
                push_results_matches(&mut out, &containers[ai].1.results, q);
            } else {
                proof {
                    lemma_find_pair_none(cv, alias_term@);
                    assert(tm_view(out@) =~= spec_results_matches(cv[ti as int].1.results, 1024)
                        + spec_alias_matches(cv, cv[ti as int].1.aliases, k + 1));
                }
            }
            k = k + 1;
        }
        proof {
            assert(tm_view(out@) =~= spec_direct_matches(cv, t@));
        }
        if out.len() == 0 && t.len() >= 3 {
            proof {
                assert(tm_view(out@) =~= Seq::<TermMatch>::empty());
            }
            fuzzy_matches(containers, t, &mut out);
        }
        return out;
    }
    proof {
        lemma_find_pair_none(cv, t@);
        assert(spec_direct_matches(cv, t@) =~= Seq::<TermMatch>::empty());
        assert(tm_view(out@) =~= Seq::<TermMatch>::empty());
    }
    if t.len() >= 3 {
        proof {
            assert(tm_view(out@) =~= Seq::<TermMatch>::empty());
        }
        fuzzy_matches(containers, t, &mut out);
    }
    out
}

/// Collects the fuzzy matches of a term, as `spec_fuzzy_matches` says.
fn fuzzy_matches(
    containers: &Vec<(String, Container)>,
    t: &Vec<char>,
    out: &mut Vec<(usize, Vec<Excerpt>, u32)>,
)
    requires
        tm_view(old(out)@) == Seq::<TermMatch>::empty(),
        t@.len() >= 1,
    ensures
        tm_view(final(out)@) == spec_fuzzy_matches(
            containers_view(containers@),
            t@,
            containers@.len() as int,
        ),
{
    let ghost cv = containers_view(containers@);
    let n = containers.len();
    let thr: u128 = (t.len() / 6 + 1) as u128;
    let mut k: usize = 0;
    while k < n
        invariant
            n == containers@.len(),
            cv == containers_view(containers@),
            k <= n,
            t@.len() >= 1,
            thr as int == t@.len() / 6 + 1,
            tm_view(out@) =~= spec_fuzzy_matches(cv, t@, k as int),
        decreases n - k,
    {
        let key = chars_of(containers[k].0.as_str());
        let d = lev_dist(t, &key);
        proof {
            assert(cv[k as int] == (containers@[k as int].0@, containers@[k as int].1@));
            assert(key@ == cv[k as int].0);
        }
        if d <= thr {
            proof {
                assert(spec_lev(t@, cv[k as int].0) <= t@.len() / 6 + 1);
                assert(spec_lev(t@, cv[k as int].0) <= t@.len()) by {
                    assert(t@.len() / 6 + 1 <= t@.len()) by {
                        assert(t@.len() >= 1);
                        if t@.len() < 6 {
                            assert(t@.len() / 6 == 0);
                        } else {
                            assert(t@.len() / 6 + 1 <= t@.len()) by (nonlinear_arith)
                                requires t@.len() >= 6;
                        }
                    }
                }
            }
            let len128 = t.len() as u128;
            let q128 = ((len128 - d) * 1024) / len128;
            proof {
                assert(q128 <= 1024) by (nonlinear_arith)
                    requires
                        len128 >= 1,
                        d <= len128,
                        q128 as int == ((len128 as int - d as int) * 1024) / (len128 as int),
                ;
            }
            let q: u32 = q128 as u32;
            proof {
                assert(len128 as int == t@.len() as int);
                assert(d as int == spec_lev(t@, cv[k as int].0) as int);
                assert(q == spec_fuzzy_quality(t@.len(), spec_lev(t@, cv[k as int].0)));
            }
            push_results_matches(out, &containers[k].1.results, q);
        }
        k = k + 1;
        proof {
            assert(tm_view(out@) =~= spec_fuzzy_matches(cv, t@, k as int));
        }
    }
}

/// The running tally of one entry across query terms: its composite score,
/// the last term that contributed (for the coverage bonus), and its matched
/// excerpts with their qualities.
#[verifier::ext_equal]
pub struct AggData {
    pub score: u64,
    pub last_term: usize,
    pub excerpts: Seq<(Excerpt, u32)>,
}

/// Saturating 64-bit addition.
pub open spec fn spec_sat64(a: u64, b: u64) -> u64 {
    if a + b > u64::MAX {
        u64::MAX
    } else {
        (a + b) as u64
    }
}

/// Saturating 64-bit addition.
pub fn sat64(a: u64, b: u64) -> (r: u64)
    ensures
        r == spec_sat64(a, b),
{
    if a > u64::MAX - b {
        u64::MAX
    } else {
        a + b
    }
}

/// The score one match contributes: the sum over its excerpts of importance
/// times match quality.
pub open spec fn spec_tuple_score(excs: Seq<Excerpt>, q: u32) -> u64
    decreases excs.len(),
{
    if excs.len() == 0 {
        0u64
    } else {
        spec_sat64(
            spec_tuple_score(excs.drop_last(), q),
            ((excs.last().importance as u64) * (q as u64)) as u64,
        )
    }
}

/// The bonus an entry gains for each distinct query term that matches it.
pub open spec fn spec_coverage_bonus() -> u64 {
    4096
}

/// Folds one term match into the per-entry tallies.
pub open spec fn spec_merge_tuple(
    aggs: Seq<(usize, AggData)>,
    tm: TermMatch,
    term_idx: usize,
) -> Seq<(usize, AggData)> {
    let ts = spec_tuple_score(tm.excerpts, tm.quality);
    let qexcs = tm.excerpts.map_values(|e: Excerpt| (e, tm.quality));
    let t = spec_find_pair(aggs, tm.entry);
    if t < 0 {
        aggs.push(
            (
                tm.entry,
                AggData {
                    score: spec_sat64(ts, spec_coverage_bonus()),
                    last_term: term_idx,
                    excerpts: qexcs,
                },
            ),
        )
    } else {
        let bonus: u64 = if aggs[t].1.last_term == term_idx {
            0u64
        } else {
            spec_coverage_bonus()
        };
        aggs.update(
            t,
            (
                tm.entry,
                AggData {
                    score: spec_sat64(aggs[t].1.score, spec_sat64(ts, bonus)),
                    last_term: term_idx,
                    excerpts: aggs[t].1.excerpts + qexcs,
                },
            ),
        )
    }
}

/// Folds the first `k` matches of one term into the tallies.
pub open spec fn spec_merge_term(
    aggs: Seq<(usize, AggData)>,
    tms: Seq<TermMatch>,
    term_idx: usize,
    k: int,
) -> Seq<(usize, AggData)>
    decreases k,
{
    if k <= 0 {
        aggs
    } else {
        spec_merge_tuple(spec_merge_term(aggs, tms, term_idx, k - 1), tms[k - 1], term_idx)
    }
}

/// The tallies of the first `i` query terms.
pub open spec fn spec_merge_all(
    cs: Seq<(Seq<char>, ContainerV)>,
    terms: Seq<Seq<char>>,
    i: int,
) -> Seq<(usize, AggData)>
    decreases i,
{
    if i <= 0 {
        Seq::empty()
    } else {
        let tms = spec_term_matches(cs, terms[i - 1]);
        spec_merge_term(
            spec_merge_all(cs, terms, i - 1),
            tms,
            (i - 1) as usize,
            tms.len() as int,
        )
    }
}

/// Computes the score one match contributes.
fn tuple_score(excs: &Vec<Excerpt>, q: u32) -> (r: u64)
    ensures
        r == spec_tuple_score(excs@, q),
{
    let mut acc: u64 = 0;
    let mut i: usize = 0;
    while i < excs.len()
        invariant
            i <= excs@.len(),
            acc == spec_tuple_score(excs@.take(i as int), q),
        decreases excs@.len() - i,
    {
        proof {
            assert(excs@.take(i + 1).drop_last() =~= excs@.take(i as int));
            assert(excs@.take(i + 1).last() == excs@[i as int]);
        }
        let iv = excs[i].importance as u64;
        let qv = q as u64;
        proof {
            assert(iv * qv < 0x1_0000_0000_0000_0000) by (nonlinear_arith)
                requires
                    iv < 0x1_0000_0000,
                    qv < 0x1_0000_0000,
            ;
        }
        acc = sat64(acc, iv * qv);
        i = i + 1;
    }
    proof {
        assert(excs@.take(excs@.len() as int) =~= excs@);
    }
    acc
}

/// The views of the tallies.
pub open spec fn aggs_view(s: Seq<(usize, u64, usize, Vec<(Excerpt, u32)>)>) -> Seq<
    (usize, AggData),
> {
    s.map_values(|p: (usize, u64, usize, Vec<(Excerpt, u32)>)| (
        p.0,
        AggData { score: p.1, last_term: p.2, excerpts: p.3@ },
    ))
}

/// Folds one term's matches into the tallies, as `spec_merge_term` says.
fn merge_term(
    aggs: &mut Vec<(usize, u64, usize, Vec<(Excerpt, u32)>)>,
    tms: &Vec<(usize, Vec<Excerpt>, u32)>,
    term_idx: usize,
)
    ensures
        aggs_view(final(aggs)@) == spec_merge_term(
            aggs_view(old(aggs)@),
            tm_view(tms@),
            term_idx,
            tms@.len() as int,
        ),
{
    let n = tms.len();
    let mut k: usize = 0;
    while k < n
        invariant
            n == tms@.len(),
            k <= n,
            aggs_view(aggs@) == spec_merge_term(
                aggs_view(old(aggs)@),
                tm_view(tms@),
                term_idx,
                k as int,
            ),
        decreases n - k,
    {
        proof {
            assert(tm_view(tms@)[k as int] == TermMatch {
                entry: tms@[k as int].0,
                excerpts: tms@[k as int].1@,
                quality: tms@[k as int].2,
            });
        }
        let ghost av = aggs_view(aggs@);
        let e = tms[k].0;
        let q = tms[k].2;
        let ts = tuple_score(&tms[k].1, q);
        let mut qexcs: Vec<(Excerpt, u32)> = Vec::new();
        let m = tms[k].1.len();
        let mut j: usize = 0;
        while j < m
            invariant
                k < n,
                n == tms@.len(),
                m == tms@[k as int].1@.len(),
                j <= m,
                q == tms@[k as int].2,
                qexcs@ =~= tms@[k as int].1@.take(j as int).map_values(
                    |ex: Excerpt| (ex, tms@[k as int].2),
                ),
            decreases m - j,
        {
            qexcs.push((tms[k].1[j], q));
            j = j + 1;
            proof {
                assert(qexcs@ =~= tms@[k as int].1@.take(j as int).map_values(
                    |ex: Excerpt| (ex, tms@[k as int].2),
                ));
            }
        }
        proof {
            assert(tms@[k as int].1@.take(m as int) =~= tms@[k as int].1@);
        }
        let an = aggs.len();
        let mut ai: usize = 0;
        let mut afound: bool = false;
        while ai < an && !afound
            invariant
                an == aggs@.len(),
                av == aggs_view(aggs@),
                ai <= an,
                !afound ==> forall|x: int| 0 <= x < ai ==> av[x].0 != e,
                afound ==> ai < an && av[ai as int].0 == e && forall|x: int|
                    0 <= x < ai ==> av[x].0 != e,
            decreases an - ai, if afound { 0int } else { 1int },
        {
            proof {
                assert(av[ai as int].0 == aggs@[ai as int].0);
            }
            if aggs[ai].0 == e {
                afound = true;
            } else {
                ai = ai + 1;
            }
        }
        if afound {
            proof {
                lemma_find_pair_is(av, e, ai as int);
            }
            let (e0, score0, lt0, mut excs0) = aggs.remove(ai);
            let bonus: u64 = if lt0 == term_idx {
                0
            } else {
                4096
            };
            let new_score = sat64(score0, sat64(ts, bonus));
            let mut qe = qexcs;
            excs0.append(&mut qe);
            aggs.insert(ai, (e0, new_score, term_idx, excs0));
            proof {
                assert(aggs_view(aggs@) =~= spec_merge_tuple(av, tm_view(tms@)[k as int], term_idx));
            }
        } else {
            proof {
                lemma_find_pair_none(av, e);
            }
            aggs.push((e, sat64(ts, 4096), term_idx, qexcs));
            proof {
                assert(aggs_view(aggs@) =~= spec_merge_tuple(av, tm_view(tms@)[k as int], term_idx));
            }
        }
        k = k + 1;
    }
}

/// Strict lexicographic order on character sequences, by code point.
pub open spec fn spec_lex_lt(a: Seq<char>, b: Seq<char>) -> bool
    decreases a.len(),
{
    if b.len() == 0 {
        false
    } else if a.len() == 0 {
        true
    } else if (a[0] as u32) < (b[0] as u32) {
        true
    } else if (a[0] as u32) > (b[0] as u32) {
        false
    } else {
        spec_lex_lt(a.drop_first(), b.drop_first())
    }
}

/// Decides the lexicographic order of two character vectors.
fn lex_lt(a: &Vec<char>, b: &Vec<char>) -> (r: bool)
    ensures
        r == spec_lex_lt(a@, b@),
{
    let mut i: usize = 0;
    proof {
        assert(a@.skip(0) =~= a@);
        assert(b@.skip(0) =~= b@);
    }
    while i < a.len() && i < b.len()
        invariant
            i <= a@.len(),
            i <= b@.len(),
            spec_lex_lt(a@, b@) == spec_lex_lt(a@.skip(i as int), b@.skip(i as int)),
        decreases a@.len() - i,
    {
        proof {
            let sa = a@.skip(i as int);
            let sb = b@.skip(i as int);
            assert(sa[0] == a@[i as int]);
            assert(sb[0] == b@[i as int]);
            assert(sa.drop_first() =~= a@.skip(i + 1));
            assert(sb.drop_first() =~= b@.skip(i + 1));
        }
        let ca = a[i] as u32;
        let cb = b[i] as u32;
        if ca < cb {
            return true;
        }
        if ca > cb {
            return false;
        }
        i = i + 1;
    }
    proof {
        assert(a@.skip(i as int).len() == a@.len() - i);
        assert(b@.skip(i as int).len() == b@.len() - i);
    }
    i >= a.len() && i < b.len()
}

/// The first tally outranks the second: higher score, or an equal score and
/// an earlier title.
pub open spec fn spec_better(
    x: (usize, AggData),
    y: (usize, AggData),
    entries: Seq<EntryV>,
) -> bool {
    let tx: Seq<char> = if x.0 < entries.len() {
        entries[x.0 as int].title
    } else {
        Seq::empty()
    };
    let ty: Seq<char> = if y.0 < entries.len() {
        entries[y.0 as int].title
    } else {
        Seq::empty()
    };
    x.1.score > y.1.score || (x.1.score == y.1.score && spec_lex_lt(tx, ty))
}

/// Inserts a tally into a ranked list, before the first one it outranks.
pub open spec fn spec_insert_ranked(
    sorted: Seq<(usize, AggData)>,
    x: (usize, AggData),
    entries: Seq<EntryV>,
) -> Seq<(usize, AggData)>
    decreases sorted.len(),
{
    if sorted.len() == 0 {
        seq![x]
    } else if spec_better(x, sorted[0], entries) {
        seq![x] + sorted
    } else {
        seq![sorted[0]] + spec_insert_ranked(sorted.drop_first(), x, entries)
    }
}

/// The tallies ranked by score, title as tiebreak: an insertion sort.
pub open spec fn spec_rank(
    aggs: Seq<(usize, AggData)>,
    entries: Seq<EntryV>,
    i: int,
) -> Seq<(usize, AggData)>
    decreases i,
{
    if i <= 0 {
        Seq::empty()
    } else {
        spec_insert_ranked(spec_rank(aggs, entries, i - 1), aggs[i - 1], entries)
    }
}

/// Decides whether one tally outranks another.
fn better(
    x: &(usize, u64, usize, Vec<(Excerpt, u32)>),
    y: &(usize, u64, usize, Vec<(Excerpt, u32)>),
    entries: &Vec<Entry>,
) -> (r: bool)
    ensures
        r == spec_better(
            (x.0, AggData { score: x.1, last_term: x.2, excerpts: x.3@ }),
            (y.0, AggData { score: y.1, last_term: y.2, excerpts: y.3@ }),
            entries_view(entries@),
        ),
{
    if x.1 > y.1 {
        return true;
    }
    if x.1 < y.1 {
        return false;
    }
    let tx: Vec<char> = if x.0 < entries.len() {
        chars_of(entries[x.0].title.as_str())
    } else {
        Vec::new()
    };
    let ty: Vec<char> = if y.0 < entries.len() {
        chars_of(entries[y.0].title.as_str())
    } else {
        Vec::new()
    };
    proof {
        assert(entries_view(entries@).len() == entries@.len());
        if x.0 < entries@.len() {
            assert(entries_view(entries@)[x.0 as int] == entries@[x.0 as int]@);
        }
        if y.0 < entries@.len() {
            assert(entries_view(entries@)[y.0 as int] == entries@[y.0 as int]@);
        }
        assert(tx@ =~= ({
            let xe: Seq<char> = if x.0 < entries_view(entries@).len() {
                entries_view(entries@)[x.0 as int].title
            } else {
                Seq::empty()
            };
            xe
        }));
        assert(ty@ =~= ({
            let ye: Seq<char> = if y.0 < entries_view(entries@).len() {
                entries_view(entries@)[y.0 as int].title
            } else {
                Seq::empty()
            };
            ye
        }));
    }
    lex_lt(&tx, &ty)
}

/// Ranks the tallies, as `spec_rank` says.
fn rank_aggs(
    aggs: Vec<(usize, u64, usize, Vec<(Excerpt, u32)>)>,
    entries: &Vec<Entry>,
) -> (r: Vec<(usize, u64, usize, Vec<(Excerpt, u32)>)>)
    ensures
        aggs_view(r@) == spec_rank(aggs_view(aggs@), entries_view(entries@), aggs@.len() as int),
{
    let ghost av = aggs_view(aggs@);
    let ghost ev = entries_view(entries@);
    let mut sorted: Vec<(usize, u64, usize, Vec<(Excerpt, u32)>)> = Vec::new();
    let mut aggs = aggs;
    let n = aggs.len();
    proof {
        assert(aggs_view(sorted@) =~= Seq::<(usize, AggData)>::empty());
    }
    let mut i: usize = 0;
    while i < n
        invariant
            n == av.len(),
            av == aggs_view(aggs@),
            ev == entries_view(entries@),
            aggs@.len() == n,
            i <= n,
            aggs_view(sorted@) == spec_rank(av, ev, i as int),
        decreases n - i,
    {
        let x = (aggs[i].0, aggs[i].1, aggs[i].2, clone_qexcs(&aggs[i].3));
        proof {
            assert(aggs_view(aggs@)[i as int] == (aggs@[i as int].0, AggData {
                score: aggs@[i as int].1,
                last_term: aggs@[i as int].2,
                excerpts: aggs@[i as int].3@,
            }));
        }
        let ghost sv = aggs_view(sorted@);
        let m = sorted.len();
        let mut pos: usize = 0;
        let mut placed: bool = false;
        while pos < m && !placed
            invariant
                m == sorted@.len(),
                sv == aggs_view(sorted@),
                ev == entries_view(entries@),
                pos <= m,
                av[i as int] == (x.0, AggData { score: x.1, last_term: x.2, excerpts: x.3@ }),
                i < n,
                n == av.len(),
                av == aggs_view(aggs@),
                aggs@.len() == n,
                x.0 == aggs@[i as int].0 && x.1 == aggs@[i as int].1 && x.2 == aggs@[i as int].2
                    && x.3@ == aggs@[i as int].3@,
                !placed ==> forall|j: int| 0 <= j < pos ==> !spec_better(
                    av[i as int],
                    #[trigger] sv[j],
                    ev,
                ),
                placed ==> pos < m && spec_better(av[i as int], sv[pos as int], ev)
                    && forall|j: int| 0 <= j < pos ==> !spec_better(
                    av[i as int],
                    #[trigger] sv[j],
                    ev,
                ),
            decreases m - pos, if placed { 0int } else { 1int },
        {
            proof {
                assert(sv[pos as int] == (sorted@[pos as int].0, AggData {
                    score: sorted@[pos as int].1,
                    last_term: sorted@[pos as int].2,
                    excerpts: sorted@[pos as int].3@,
                }));
            }
            if better(&x, &sorted[pos], entries) {
                placed = true;
            } else {
                pos = pos + 1;
            }
        }
        sorted.insert(pos, x);
        proof {
            lemma_insert_ranked_at(sv, av[i as int], ev, pos as int);
            assert(aggs_view(sorted@) =~= sv.insert(pos as int, av[i as int]));
        }
        i = i + 1;
    }
    sorted
}

/// Inserting before the first outranked element is what the ranked insert
/// does.
pub proof fn lemma_insert_ranked_at(
    sorted: Seq<(usize, AggData)>,
    x: (usize, AggData),
    entries: Seq<EntryV>,
    pos: int,
)
    requires
        0 <= pos <= sorted.len(),
        forall|j: int| 0 <= j < pos ==> !spec_better(x, #[trigger] sorted[j], entries),
        pos < sorted.len() ==> spec_better(x, sorted[pos], entries),
    ensures
        spec_insert_ranked(sorted, x, entries) == sorted.insert(pos, x),
    decreases sorted.len(),
{
    if sorted.len() == 0 {
        assert(sorted.insert(0, x) =~= seq![x]);
    } else if pos == 0 {
        assert(spec_better(x, sorted[0], entries));
        assert(sorted.insert(0, x) =~= seq![x] + sorted);
    } else {
        assert(!spec_better(x, sorted[0], entries));
        let tail = sorted.drop_first();
        assert(forall|j: int| 0 <= j < pos - 1 ==> #[trigger] tail[j] == sorted[j + 1]);
        lemma_insert_ranked_at(tail, x, entries, pos - 1);
        assert(sorted.insert(pos, x) =~= seq![sorted[0]] + tail.insert(pos - 1, x));
    }
}

/// Clones a quality-tagged excerpt list.
fn clone_qexcs(v: &Vec<(Excerpt, u32)>) -> (r: Vec<(Excerpt, u32)>)
    ensures
        r@ == v@,
{
    let mut out: Vec<(Excerpt, u32)> = Vec::new();
    let mut i: usize = 0;
    while i < v.len()
        invariant
            i <= v@.len(),
            out@ =~= v@.take(i as int),
        decreases v@.len() - i,
    {
        out.push((v[i].0, v[i].1));
        i = i + 1;
    }
    proof {
        assert(v@.take(v@.len() as int) =~= v@);
    }
    out
}

/// One highlighted span of an excerpt's text, in character offsets.
#[derive(Clone, Copy, PartialEq, Eq, Structural, Debug)]
pub struct HighlightRange {
    pub beginning: usize,
    pub end: usize,
}

/// One shown excerpt: its text, the highlighted spans, and its score.
#[derive(Debug, PartialEq)]
pub struct OutputExcerpt {
    pub text: String,
    pub highlight_ranges: Vec<HighlightRange>,
    pub score: u64,
}

/// The mathematical shape of an `OutputExcerpt`.
#[verifier::ext_equal]
pub struct OutputExcerptV {
    pub text: Seq<char>,
    pub highlight_ranges: Seq<HighlightRange>,
    pub score: u64,
}

impl View for OutputExcerpt {
    type V = OutputExcerptV;

    open spec fn view(&self) -> OutputExcerptV {
        OutputExcerptV {
            text: self.text@,
            highlight_ranges: self.highlight_ranges@,
            score: self.score,
        }
    }
}

/// One shown result: the entry's data, its excerpts, the highlighted spans of
/// its title, and its composite score.
#[derive(Debug, PartialEq)]
pub struct OutputResult {
    pub title: String,
    pub url: String,
    pub fields: Vec<(String, String)>,
    pub excerpts: Vec<OutputExcerpt>,
    pub title_highlight_ranges: Vec<HighlightRange>,
    pub score: u64,
}

/// The mathematical shape of an `OutputResult`.
#[verifier::ext_equal]
pub struct OutputResultV {
    pub title: Seq<char>,
    pub url: Seq<char>,
    pub fields: Seq<(Seq<char>, Seq<char>)>,
    pub excerpts: Seq<OutputExcerptV>,
    pub title_highlight_ranges: Seq<HighlightRange>,
    pub score: u64,
}

impl View for OutputResult {
    type V = OutputResultV;

    open spec fn view(&self) -> OutputResultV {
        OutputResultV {
            title: self.title@,
            url: self.url@,
            fields: fields_view(self.fields@),
            excerpts: self.excerpts@.map_values(|e: OutputExcerpt| e@),
            title_highlight_ranges: self.title_highlight_ranges@,
            score: self.score,
        }
    }
}

/// What a whole search returns.
#[derive(Debug, PartialEq)]
pub struct SearchOutput {
    pub results: Vec<OutputResult>,
    pub total_hit_count: usize,
    pub url_prefix: String,
}

/// The mathematical shape of a `SearchOutput`.
#[verifier::ext_equal]
pub struct SearchOutputV {
    pub results: Seq<OutputResultV>,
    pub total_hit_count: usize,
    pub url_prefix: Seq<char>,
}

impl View for SearchOutput {
    type V = SearchOutputV;

    open spec fn view(&self) -> SearchOutputV {
        SearchOutputV {
            results: self.results@.map_values(|r: OutputResult| r@),
            total_hit_count: self.total_hit_count,
            url_prefix: self.url_prefix@,
        }
    }
}

/// The body excerpts of a tally whose word index lies within the entry's word
/// count, in tally order.
pub open spec fn spec_body_tuples(excs: Seq<(Excerpt, u32)>, wc: nat, i: int) -> Seq<
    (Excerpt, u32),
>
    decreases i,
{
    if i <= 0 {
        Seq::empty()
    } else {
        let prev = spec_body_tuples(excs, wc, i - 1);
        if !excs[i - 1].0.in_title && excs[i - 1].0.word_index < wc {
            prev.push(excs[i - 1])
        } else {
            prev
        }
    }
}

/// Inserts one tuple into a list sorted by word index, keeping earlier
/// arrivals first among equals.
pub open spec fn spec_insert_exc(sorted: Seq<(Excerpt, u32)>, x: (Excerpt, u32)) -> Seq<
    (Excerpt, u32),
>
    decreases sorted.len(),
{
    if sorted.len() == 0 {
        seq![x]
    } else if x.0.word_index < sorted[0].0.word_index {
        seq![x] + sorted
    } else {
        seq![sorted[0]] + spec_insert_exc(sorted.drop_first(), x)
    }
}

/// The first `i` tuples sorted by word index.
pub open spec fn spec_sort_excs(excs: Seq<(Excerpt, u32)>, i: int) -> Seq<(Excerpt, u32)>
    decreases i,
{
    if i <= 0 {
        Seq::empty()
    } else {
        spec_insert_exc(spec_sort_excs(excs, i - 1), excs[i - 1])
    }
}

/// The shown excerpt of one word hit: the window of `buf` words around it cut
/// out of the entry's text, with the hit word highlighted.
pub open spec fn spec_output_excerpt(
    contents: Seq<char>,
    words: Seq<AnnotatedWordV>,
    buf: usize,
    tup: (Excerpt, u32),
) -> OutputExcerptV {
    let wc = words.len();
    let wi = tup.0.word_index as int;
    let start_w: int = if wi > buf {
        wi - buf
    } else {
        0
    };
    let end_w: int = if wi + buf < wc - 1 {
        wi + buf
    } else {
        wc - 1
    };
    let clen = contents.len() as int;
    let start_c0: int = words[start_w].offset as int;
    let end_c0: int = if end_w + 1 < wc {
        words[end_w + 1].offset as int
    } else {
        clen
    };
    let start_c: int = if start_c0 < clen {
        start_c0
    } else {
        clen
    };
    let end_c: int = if end_c0 < start_c {
        start_c
    } else if end_c0 < clen {
        end_c0
    } else {
        clen
    };
    let text = contents.subrange(start_c, end_c);
    let off: int = words[wi].offset as int;
    let b0: int = if off >= start_c {
        off - start_c
    } else {
        0
    };
    let b: int = if b0 < text.len() {
        b0
    } else {
        text.len() as int
    };
    let e0: int = b + words[wi].word.len();
    let e: int = if e0 < text.len() {
        e0
    } else {
        text.len() as int
    };
    OutputExcerptV {
        text,
        highlight_ranges: seq![
            HighlightRange { beginning: b as usize, end: e as usize },
        ],
        score: spec_sat64(
            ((tup.0.importance as u64) * (tup.1 as u64)) as u64,
            0,
        ),
    }
}

/// The first `i` shown excerpts of a sorted tuple list.
pub open spec fn spec_output_excerpts(
    contents: Seq<char>,
    words: Seq<AnnotatedWordV>,
    buf: usize,
    sorted: Seq<(Excerpt, u32)>,
    i: int,
) -> Seq<OutputExcerptV>
    decreases i,
{
    if i <= 0 {
        Seq::empty()
    } else {
        spec_output_excerpts(contents, words, buf, sorted, i - 1).push(
            spec_output_excerpt(contents, words, buf, sorted[i - 1]),
        )
    }
}

/// The highlighted spans of an entry's title, one per title hit whose word
/// index lies within the title's word count.
pub open spec fn spec_title_highlights(
    title: Seq<char>,
    twords: Seq<AnnotatedWordV>,
    excs: Seq<(Excerpt, u32)>,
    i: int,
) -> Seq<HighlightRange>
    decreases i,
{
    if i <= 0 {
        Seq::empty()
    } else {
        let prev = spec_title_highlights(title, twords, excs, i - 1);
        let exc = excs[i - 1].0;
        if exc.in_title && exc.word_index < twords.len() {
            let off: int = twords[exc.word_index as int].offset as int;
            let b: int = if off < title.len() {
                off
            } else {
                title.len() as int
            };
            let e0: int = b + twords[exc.word_index as int].word.len();
            let e: int = if e0 < title.len() {
                e0
            } else {
                title.len() as int
            };
            prev.push(HighlightRange { beginning: b as usize, end: e as usize })
        } else {
            prev
        }
    }
}

/// The shown result of one ranked tally.
pub open spec fn spec_output_result(
    entries: Seq<EntryV>,
    agg: (usize, AggData),
    buf: usize,
    per_result: usize,
) -> OutputResultV {
    let e = entries[agg.0 as int];
    let words = spec_tokenize(e.contents);
    let body = spec_body_tuples(agg.1.excerpts, words.len(), agg.1.excerpts.len() as int);
    let sorted = spec_sort_excs(body, body.len() as int);
    let shown: int = if per_result < sorted.len() {
        per_result as int
    } else {
        sorted.len() as int
    };
    let twords = spec_tokenize(e.title);
    OutputResultV {
        title: e.title,
        url: e.url,
        fields: e.fields,
        excerpts: spec_output_excerpts(e.contents, words, buf, sorted, shown),
        title_highlight_ranges: spec_title_highlights(
            e.title,
            twords,
            agg.1.excerpts,
            agg.1.excerpts.len() as int,
        ),
        score: agg.1.score,
    }
}

/// The shown results of the first `i` ranked tallies: each one that points
/// into the entry table.
pub open spec fn spec_output_results(
    entries: Seq<EntryV>,
    ranked: Seq<(usize, AggData)>,
    buf: usize,
    per_result: usize,
    i: int,
) -> Seq<OutputResultV>
    decreases i,
{
    if i <= 0 {
        Seq::empty()
    } else {
        let prev = spec_output_results(entries, ranked, buf, per_result, i - 1);
        if ranked[i - 1].0 < entries.len() {
            prev.push(spec_output_result(entries, ranked[i - 1], buf, per_result))
        } else {
            prev
        }
    }
}

/// What a search returns: the query's terms matched against the containers,
/// merged per entry with a coverage bonus, ranked by score with the title as
/// tiebreak, cut to the configured count; the hit count reports the ranked
/// tallies before the cut.
pub open spec fn spec_search(iv: IndexV, q: Seq<char>) -> SearchOutputV {
    let terms = spec_query_terms(q);
    let aggs = spec_merge_all(iv.containers, terms, terms.len() as int);
    let ranked = spec_rank(aggs, iv.entries, aggs.len() as int);
    let cut: int = if iv.config.displayed_results_count < ranked.len() {
        iv.config.displayed_results_count as int
    } else {
        ranked.len() as int
    };
    SearchOutputV {
        results: spec_output_results(
            iv.entries,
            ranked.take(cut),
            iv.config.excerpt_buffer,
            iv.config.excerpts_per_result,
            cut,
        ),
        total_hit_count: aggs.len() as usize,
        url_prefix: iv.config.url_prefix,
    }
}

/// Copies a character range out of a text.
fn chars_slice(cs: &Vec<char>, a: usize, b: usize) -> (r: Vec<char>)
    requires
        a <= b <= cs@.len(),
    ensures
        r@ == cs@.subrange(a as int, b as int),
{
    let mut out: Vec<char> = Vec::new();
    let mut i: usize = a;
    while i < b
        invariant
            a <= i <= b <= cs@.len(),
            out@ =~= cs@.subrange(a as int, i as int),
        decreases b - i,
    {
        out.push(cs[i]);
        i = i + 1;
    }
    proof {
        assert(out@ =~= cs@.subrange(a as int, b as int));
    }
    out
}

/// Builds the shown excerpt of one word hit, as `spec_output_excerpt` says.
fn output_excerpt(
    contents: &Vec<char>,
    words: &Vec<AnnotatedWord>,
    buf: usize,
    exc: Excerpt,
    q: u32,
) -> (r: OutputExcerpt)
    requires
        (exc.word_index as int) < words@.len(),
    ensures
        r@ == spec_output_excerpt(contents@, words_view(words@), buf, (exc, q)),
{
    let wc = words.len();
    let wi = exc.word_index;
    proof {
        assert(words_view(words@)[wi as int] == words@[wi as int]@);
    }
    let start_w: usize = if wi > buf {
        wi - buf
    } else {
        0
    };
    let end_w: usize = if wc - 1 - wi > buf {
        wi + buf
    } else {
        wc - 1
    };
    proof {
        assert(words_view(words@)[start_w as int] == words@[start_w as int]@);
        assert(words_view(words@)[end_w as int] == words@[end_w as int]@);
    }
    let clen = contents.len();
    let start_c0 = words[start_w].offset;
    let end_c0: usize = if end_w + 1 < wc {
        proof {
            assert(words_view(words@)[end_w + 1] == words@[end_w + 1]@);
        }
        words[end_w + 1].offset
    } else {
        clen
    };
    let start_c: usize = if start_c0 < clen {
        start_c0
    } else {
        clen
    };
    let end_c: usize = if end_c0 < start_c {
        start_c
    } else if end_c0 < clen {
        end_c0
    } else {
        clen
    };
    let text_chars = chars_slice(contents, start_c, end_c);
    let off = words[wi].offset;
    let b0: usize = if off >= start_c {
        off - start_c
    } else {
        0
    };
    let tlen = text_chars.len();
    let b: usize = if b0 < tlen {
        b0
    } else {
        tlen
    };
    let wlen = words[wi].word.as_str().unicode_len();
    let e: usize = if wlen < tlen - b {
        b + wlen
    } else {
        tlen
    };
    let iv = exc.importance as u64;
    let qv = q as u64;
    proof {
        assert(iv * qv < 0x1_0000_0000_0000_0000) by (nonlinear_arith)
            requires
                iv < 0x1_0000_0000,
                qv < 0x1_0000_0000,
        ;
    }
    let score = sat64(iv * qv, 0);
    let mut hrs: Vec<HighlightRange> = Vec::new();
    hrs.push(HighlightRange { beginning: b, end: e });
    let text = string_of(&text_chars);
    let r = OutputExcerpt { text, highlight_ranges: hrs, score };
    proof {
        assert(r@.highlight_ranges =~= spec_output_excerpt(
            contents@,
            words_view(words@),
            buf,
            (exc, q),
        ).highlight_ranges);
        assert(r@ =~= spec_output_excerpt(contents@, words_view(words@), buf, (exc, q)));
    }
    r
}

/// Inserting before the first later word index is what the sorted insert
/// does.
pub proof fn lemma_insert_exc_at(sorted: Seq<(Excerpt, u32)>, x: (Excerpt, u32), pos: int)
    requires
        0 <= pos <= sorted.len(),
        forall|j: int| 0 <= j < pos ==> !(x.0.word_index < (#[trigger] sorted[j]).0.word_index),
        pos < sorted.len() ==> x.0.word_index < sorted[pos].0.word_index,
    ensures
        spec_insert_exc(sorted, x) == sorted.insert(pos, x),
    decreases sorted.len(),
{
    if sorted.len() == 0 {
        assert(sorted.insert(0, x) =~= seq![x]);
    } else if pos == 0 {
        assert(sorted.insert(0, x) =~= seq![x] + sorted);
    } else {
        let tail = sorted.drop_first();
        assert(forall|j: int| 0 <= j < pos - 1 ==> #[trigger] tail[j] == sorted[j + 1]);
        lemma_insert_exc_at(tail, x, pos - 1);
        assert(sorted.insert(pos, x) =~= seq![sorted[0]] + tail.insert(pos - 1, x));
    }
}

/// Builds the shown result of one ranked tally, as `spec_output_result` says.
fn output_result(
    entries: &Vec<Entry>,
    e_idx: usize,
    score: u64,
    last_term: usize,
    excs: &Vec<(Excerpt, u32)>,
    buf: usize,
    per_result: usize,
) -> (r: OutputResult)
    requires
        (e_idx as int) < entries@.len(),
    ensures
        r@ == spec_output_result(
            entries_view(entries@),
            (e_idx, AggData { score, last_term, excerpts: excs@ }),
            buf,
            per_result,
        ),
{
    proof {
        assert(entries_view(entries@)[e_idx as int] == entries@[e_idx as int]@);
    }
    let entry = &entries[e_idx];
    let cchars = chars_of(entry.contents.as_str());
    let words = tokenize(&cchars);
    let ghost wv = words_view(words@);
    let wc = words.len();
    let n = excs.len();
    let mut body: Vec<(Excerpt, u32)> = Vec::new();
    let mut i: usize = 0;
    proof {
        assert(wv.len() == words@.len());
        assert(body@ =~= spec_body_tuples(excs@, wv.len(), 0));
    }
    while i < n
        invariant
            n == excs@.len(),
            i <= n,
            wc == wv.len(),
            wv == words_view(words@),
            wc == words@.len(),
            body@ == spec_body_tuples(excs@, wv.len(), i as int),
            forall|j: int| 0 <= j < body@.len() ==> (#[trigger] body@[j]).0.word_index < wc,
        decreases n - i,
    {
        if !excs[i].0.in_title && excs[i].0.word_index < wc {
            body.push((excs[i].0, excs[i].1));
            proof {
                assert(body@ =~= spec_body_tuples(excs@, wv.len(), i + 1));
            }
        }
        i = i + 1;
    }
    let ghost bodyv = body@;
    let mut sorted: Vec<(Excerpt, u32)> = Vec::new();
    let mut i2: usize = 0;
    proof {
        assert(sorted@ =~= spec_sort_excs(bodyv, 0));
    }
    while i2 < body.len()
        invariant
            bodyv == body@,
            i2 <= body@.len(),
            sorted@ == spec_sort_excs(bodyv, i2 as int),
            forall|j: int| 0 <= j < sorted@.len() ==> (#[trigger] sorted@[j]).0.word_index < wc,
            forall|j: int| 0 <= j < body@.len() ==> (#[trigger] body@[j]).0.word_index < wc,
            wc == wv.len(),
        decreases body@.len() - i2,
    {
        let x = (body[i2].0, body[i2].1);
        let m = sorted.len();
        let ghost sv = sorted@;
        let mut pos: usize = 0;
        let mut placed: bool = false;
        while pos < m && !placed
            invariant
                m == sorted@.len(),
                sv == sorted@,
                pos <= m,
                x == (body@[i2 as int].0, body@[i2 as int].1),
                i2 < body@.len(),
                bodyv == body@,
                !placed ==> forall|j: int| 0 <= j < pos ==> !(x.0.word_index < (
                #[trigger] sv[j]).0.word_index),
                placed ==> pos < m && x.0.word_index < sv[pos as int].0.word_index && forall|
                    j: int,
                | 0 <= j < pos ==> !(x.0.word_index < (#[trigger] sv[j]).0.word_index),
            decreases m - pos, if placed { 0int } else { 1int },
        {
            if x.0.word_index < sorted[pos].0.word_index {
                placed = true;
            } else {
                pos = pos + 1;
            }
        }
        sorted.insert(pos, x);
        proof {
            lemma_insert_exc_at(sv, x, pos as int);
            assert(sorted@ =~= sv.insert(pos as int, x));
            assert(body@[i2 as int] == x);
        }
        i2 = i2 + 1;
    }
    let shown: usize = if per_result < sorted.len() {
        per_result
    } else {
        sorted.len()
    };
    let mut outs: Vec<OutputExcerpt> = Vec::new();
    let mut i3: usize = 0;
    while i3 < shown
        invariant
            shown <= sorted@.len(),
            i3 <= shown,
            wc == wv.len(),
            wv == words_view(words@),
            wc == words@.len(),
            cchars@ == entries@[e_idx as int].contents@,
            e_idx < entries@.len(),
            sorted@ == spec_sort_excs(bodyv, bodyv.len() as int),
            forall|j: int| 0 <= j < sorted@.len() ==> (#[trigger] sorted@[j]).0.word_index < wc,
            outs@.map_values(|o: OutputExcerpt| o@) == spec_output_excerpts(
                entries@[e_idx as int].contents@,
                wv,
                buf,
                sorted@,
                i3 as int,
            ),
        decreases shown - i3,
    {
        let oe = output_excerpt(&cchars, &words, buf, sorted[i3].0, sorted[i3].1);
        outs.push(oe);
        proof {
            assert((sorted@[i3 as int].0, sorted@[i3 as int].1) == sorted@[i3 as int]);
            assert(outs@.map_values(|o: OutputExcerpt| o@) =~= spec_output_excerpts(
                entries@[e_idx as int].contents@,
                wv,
                buf,
                sorted@,
                i3 + 1,
            ));
        }
        i3 = i3 + 1;
    }
    let tchars = chars_of(entry.title.as_str());
    let twords = tokenize(&tchars);
    let ghost twv = words_view(twords@);
    let tlen = entry.title.as_str().unicode_len();
    let mut thl: Vec<HighlightRange> = Vec::new();
    let mut i4: usize = 0;
    proof {
        assert(thl@ =~= spec_title_highlights(entries@[e_idx as int].title@, twv, excs@, 0));
    }
    while i4 < n
        invariant
            n == excs@.len(),
            i4 <= n,
            twv == words_view(twords@),
            twords@.len() == twv.len(),
            tlen == entries@[e_idx as int].title@.len(),
            e_idx < entries@.len(),
            thl@ == spec_title_highlights(entries@[e_idx as int].title@, twv, excs@, i4 as int),
        decreases n - i4,
    {
        let exc = excs[i4].0;
        if exc.in_title && exc.word_index < twords.len() {
            proof {
                assert(twv[exc.word_index as int] == twords@[exc.word_index as int]@);
            }
            let off = twords[exc.word_index].offset;
            let b: usize = if off < tlen {
                off
            } else {
                tlen
            };
            let wlen2 = twords[exc.word_index].word.as_str().unicode_len();
            let e: usize = if wlen2 < tlen - b {
                b + wlen2
            } else {
                tlen
            };
            thl.push(HighlightRange { beginning: b, end: e });
            proof {
                assert(thl@ =~= spec_title_highlights(
                    entries@[e_idx as int].title@,
                    twv,
                    excs@,
                    i4 + 1,
                ));
            }
        }
        i4 = i4 + 1;
    }
    let r = OutputResult {
        title: entry.title.clone(),
        url: entry.url.clone(),
        fields: crate::builder::clone_fields_pub(&entry.fields),
        excerpts: outs,
        title_highlight_ranges: thl,
        score,
    };
    proof {
        assert(r@ =~= spec_output_result(
            entries_view(entries@),
            (e_idx, AggData { score, last_term, excerpts: excs@ }),
            buf,
            per_result,
        ));
    }
    r
}

/// Runs one query against an index, as `spec_search` says.
pub fn search(index: &Index, query: &String) -> (r: SearchOutput)
    ensures
        r@ == spec_search(index@, query@),
{
    let terms = query_terms(query);
    let ghost termsv = terms@.map_values(|t: Vec<char>| t@);
    let mut aggs: Vec<(usize, u64, usize, Vec<(Excerpt, u32)>)> = Vec::new();
    let nt = terms.len();
    let mut i: usize = 0;
    proof {
        assert(aggs_view(aggs@) =~= spec_merge_all(containers_view(index.containers@), termsv, 0));
    }
    while i < nt
        invariant
            nt == terms@.len(),
            termsv == terms@.map_values(|t: Vec<char>| t@),
            i <= nt,
            aggs_view(aggs@) == spec_merge_all(
                containers_view(index.containers@),
                termsv,
                i as int,
            ),
        decreases nt - i,
    {
        proof {
            assert(termsv[i as int] == terms@[i as int]@);
        }
        let tms = term_matches(&index.containers, &terms[i]);
        merge_term(&mut aggs, &tms, i);
        i = i + 1;
    }
    let total = aggs.len();
    let ranked = rank_aggs(aggs, &index.entries);
    let ghost rankedv = aggs_view(ranked@);
    let cut: usize = if index.config.displayed_results_count < ranked.len() {
        index.config.displayed_results_count
    } else {
        ranked.len()
    };
    proof {
        assert(spec_rank(
            spec_merge_all(containers_view(index.containers@), termsv, nt as int),
            entries_view(index.entries@),
            total as int,
        ) == rankedv);
    }
    let mut results: Vec<OutputResult> = Vec::new();
    let mut k: usize = 0;
    proof {
        assert(results@.map_values(|o: OutputResult| o@) =~= spec_output_results(
            entries_view(index.entries@),
            rankedv.take(cut as int),
            index.config.excerpt_buffer,
            index.config.excerpts_per_result,
            0,
        ));
    }
    while k < cut
        invariant
            cut <= ranked@.len(),
            rankedv == aggs_view(ranked@),
            k <= cut,
            results@.map_values(|o: OutputResult| o@) == spec_output_results(
                entries_view(index.entries@),
                rankedv.take(cut as int),
                index.config.excerpt_buffer,
                index.config.excerpts_per_result,
                k as int,
            ),
        decreases cut - k,
    {
        proof {
            assert(rankedv.take(cut as int)[k as int] == rankedv[k as int]);
            assert(rankedv[k as int] == (ranked@[k as int].0, AggData {
                score: ranked@[k as int].1,
                last_term: ranked@[k as int].2,
                excerpts: ranked@[k as int].3@,
            }));
        }
        if ranked[k].0 < index.entries.len() {
            let o = output_result(
                &index.entries,
                ranked[k].0,
                ranked[k].1,
                ranked[k].2,
                &ranked[k].3,
                index.config.excerpt_buffer,
                index.config.excerpts_per_result,
            );
            results.push(o);
            proof {
                assert(results@.map_values(|o2: OutputResult| o2@) =~= spec_output_results(
                    entries_view(index.entries@),
                    rankedv.take(cut as int),
                    index.config.excerpt_buffer,
                    index.config.excerpts_per_result,
                    k + 1,
                ));
            }
        }
        k = k + 1;
    }
    let r = SearchOutput {
        results,
        total_hit_count: total,
        url_prefix: index.config.url_prefix.clone(),
    };
    proof {
        assert(r@ =~= spec_search(index@, query@));
    }
    r
}

/// Folding one match never shrinks the tally list.
pub proof fn lemma_merge_tuple_len(aggs: Seq<(usize, AggData)>, tm: TermMatch, term_idx: usize)
    ensures
        spec_merge_tuple(aggs, tm, term_idx).len() >= aggs.len(),
{
    lemma_find_pair(aggs, tm.entry);
}

/// Folding one term's matches never shrinks the tally list.
pub proof fn lemma_merge_term_len(
    aggs: Seq<(usize, AggData)>,
    tms: Seq<TermMatch>,
    term_idx: usize,
    k: int,
)
    ensures
        spec_merge_term(aggs, tms, term_idx, k).len() >= aggs.len(),
    decreases k,
{
    if k > 0 {
        lemma_merge_term_len(aggs, tms, term_idx, k - 1);
        lemma_merge_tuple_len(spec_merge_term(aggs, tms, term_idx, k - 1), tms[k - 1], term_idx);
    }
}

/// The first `i` terms of a query with one term appended tally exactly as the
/// first `i` terms of the original query.
pub proof fn lemma_merge_all_prefix(
    cs: Seq<(Seq<char>, ContainerV)>,
    terms: Seq<Seq<char>>,
    t: Seq<char>,
    i: int,
)
    requires
        i <= terms.len(),
    ensures
        spec_merge_all(cs, terms.push(t), i) == spec_merge_all(cs, terms, i),
    decreases i,
{
    if i > 0 {
        lemma_merge_all_prefix(cs, terms, t, i - 1);
        assert(terms.push(t)[i - 1] == terms[i - 1]);
    }
}

/// Adding a term to a query never shrinks the set of tallied entries, so the
/// reported total hit count never drops when a term is added.
pub proof fn lemma_added_term_keeps_hits(
    cs: Seq<(Seq<char>, ContainerV)>,
    terms: Seq<Seq<char>>,
    t: Seq<char>,
)
    ensures
        spec_merge_all(cs, terms.push(t), terms.len() as int + 1).len() >= spec_merge_all(
            cs,
            terms,
            terms.len() as int,
        ).len(),
{
    lemma_merge_all_prefix(cs, terms, t, terms.len() as int);
    assert(terms.push(t)[terms.len() as int] == t);
    lemma_merge_term_len(
        spec_merge_all(cs, terms.push(t), terms.len() as int),
        spec_term_matches(cs, t),
        terms.len() as usize,
        spec_term_matches(cs, t).len() as int,
    );
}

} // verus!
