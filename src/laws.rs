//! Properties of rewriting and of the closure, stated over the model.
use vstd::prelude::*;
use crate::closure::{closure_of, derived, explore, open_part, successors, terminal_part};
use crate::grammar::is_terminal_word;
use crate::text::{derivations, occurrences, rewrite_at};

verus! {

/// Every occurrence found is a real one, and each lies wholly after the one
/// before it: occurrences never overlap.
pub proof fn lemma_occurrences_disjoint<A>(pat: Seq<A>, text: Seq<A>, pos: int)
    requires
        0 <= pos,
    ensures
        forall|j: int|
            0 <= j < occurrences(pat, text, pos).len() ==> {
                let k = #[trigger] occurrences(pat, text, pos)[j];
                &&& pos <= k
                &&& k + pat.len() <= text.len()
                &&& text.subrange(k, k + pat.len()) == pat
            },
        forall|j: int|
            0 < j < occurrences(pat, text, pos).len() ==> occurrences(pat, text, pos)[j - 1]
                + pat.len() <= #[trigger] occurrences(pat, text, pos)[j],
    decreases text.len() - pos,
{
    let occ = occurrences(pat, text, pos);
    if pat.len() == 0 || pos + pat.len() > text.len() {
    } else if text.subrange(pos, pos + pat.len()) == pat {
        let rest = occurrences(pat, text, pos + pat.len());
        lemma_occurrences_disjoint(pat, text, pos + pat.len());
        assert(occ == seq![pos] + rest);
        assert forall|j: int| 0 < j < occ.len() implies occ[j] == rest[j - 1] by {}
        assert forall|j: int| 1 < j < occ.len() implies #[trigger] occ[j - 1] == rest[j - 2] by {}
    } else {
        lemma_occurrences_disjoint(pat, text, pos + 1);
        assert(occ == occurrences(pat, text, pos + 1));
    }
}

/// Applying a rule to a word yields one derived word per non-overlapping
/// occurrence of its pattern, each with exactly that one occurrence
/// rewritten and the rest of the word unchanged.
pub proof fn lemma_one_word_per_occurrence(w: Seq<char>, from: Seq<char>, to: Seq<char>)
    ensures
        derivations(w, from, to).len() == occurrences(from, w, 0).len(),
        forall|j: int|
            0 <= j < derivations(w, from, to).len() ==> {
                let k = occurrences(from, w, 0)[j];
                &&& w.subrange(k, k + from.len()) == from
                &&& #[trigger] derivations(w, from, to)[j] == w.subrange(0, k) + to + w.subrange(
                    k + from.len(),
                    w.len() as int,
                )
            },
        forall|j: int|
            0 < j < occurrences(from, w, 0).len() ==> occurrences(from, w, 0)[j - 1] + from.len()
                <= #[trigger] occurrences(from, w, 0)[j],
{
    lemma_occurrences_disjoint(from, w, 0);
    assert forall|j: int| 0 <= j < derivations(w, from, to).len() implies {
        let k = occurrences(from, w, 0)[j];
        &&& w.subrange(k, k + from.len()) == from
        &&& #[trigger] derivations(w, from, to)[j] == w.subrange(0, k) + to + w.subrange(
            k + from.len(),
            w.len() as int,
        )
    } by {
        let k = occurrences(from, w, 0)[j];
        assert(derivations(w, from, to)[j] == rewrite_at(w, from, to, k));
    }
}

/// Every word the closure reports is terminal-only.
pub proof fn lemma_results_terminal(
    start: Seq<char>,
    rules: Seq<(Seq<char>, Seq<char>)>,
    terms: Seq<Seq<char>>,
    cap: nat,
)
    ensures
        forall|d: Seq<char>|
            #[trigger] closure_of(start, rules, terms, cap).0.contains(d) ==> is_terminal_word(
                d,
                terms,
            ),
{
    lemma_explore_terminal(set![start], rules, terms, cap);
}

/// Every word found from a frontier is terminal-only.
pub proof fn lemma_explore_terminal(
    f: Set<Seq<char>>,
    rules: Seq<(Seq<char>, Seq<char>)>,
    terms: Seq<Seq<char>>,
    fuel: nat,
)
    ensures
        forall|d: Seq<char>|
            #[trigger] explore(f, rules, terms, fuel).0.contains(d) ==> is_terminal_word(d, terms),
    decreases fuel,
{
    if fuel == 0 || f == Set::<Seq<char>>::empty() {
    } else {
        let g = open_part(derived(f, rules), terms);
        lemma_explore_terminal(g, rules, terms, (fuel - 1) as nat);
        let t = terminal_part(derived(f, rules), terms);
        let rest = explore(g, rules, terms, (fuel - 1) as nat);
        assert(explore(f, rules, terms, fuel).0 == t.union(rest.0));
        assert forall|d: Seq<char>| #[trigger] t.union(rest.0).contains(d) implies is_terminal_word(d, terms) by {
            if !t.contains(d) {
                assert(rest.0.contains(d));
            }
        }
    }
}

/// The number of generations run never exceeds the cap, and is zero when the
/// start word is terminal-only.
pub proof fn lemma_count_bounded(
    start: Seq<char>,
    rules: Seq<(Seq<char>, Seq<char>)>,
    terms: Seq<Seq<char>>,
    cap: nat,
)
    ensures
        closure_of(start, rules, terms, cap).1 <= cap,
        is_terminal_word(start, terms) ==> closure_of(start, rules, terms, cap) == (
        set![start], 0nat),
{
    lemma_explore_count(set![start], rules, terms, cap);
}

/// A run from a frontier takes at most its fuel in generations.
pub proof fn lemma_explore_count(
    f: Set<Seq<char>>,
    rules: Seq<(Seq<char>, Seq<char>)>,
    terms: Seq<Seq<char>>,
    fuel: nat,
)
    ensures
        explore(f, rules, terms, fuel).1 <= fuel,
    decreases fuel,
{
    if fuel == 0 || f == Set::<Seq<char>>::empty() {
    } else {
        lemma_explore_count(open_part(derived(f, rules), terms), rules, terms, (fuel - 1) as nat);
    }
}

/// Once a run has stopped because its frontier emptied before the fuel ran
/// out, after `n` generations, any fuel `m >= n` gives the same results and
/// the same count.
pub proof fn lemma_fixpoint_stable(
    f: Set<Seq<char>>,
    rules: Seq<(Seq<char>, Seq<char>)>,
    terms: Seq<Seq<char>>,
    fuel: nat,
    m: nat,
)
    requires
        explore(f, rules, terms, fuel).1 < fuel,
        explore(f, rules, terms, fuel).1 <= m,
    ensures
        explore(f, rules, terms, m) == explore(f, rules, terms, fuel),
    decreases fuel,
{
    if f == Set::<Seq<char>>::empty() {
    } else {
        let g = open_part(derived(f, rules), terms);
        lemma_fixpoint_stable(g, rules, terms, (fuel - 1) as nat, (m - 1) as nat);
    }
}

/// Idempotence at the fixpoint for whole runs: when a run under `cap` ends
/// with an empty frontier after `n` generations, every cap `m >= n` reports
/// the same results and count.
pub proof fn lemma_closure_fixpoint(
    start: Seq<char>,
    rules: Seq<(Seq<char>, Seq<char>)>,
    terms: Seq<Seq<char>>,
    cap: nat,
    m: nat,
)
    requires
        closure_of(start, rules, terms, cap).1 < cap,
        closure_of(start, rules, terms, cap).1 <= m,
    ensures
        closure_of(start, rules, terms, m) == closure_of(start, rules, terms, cap),
{
    if !is_terminal_word(start, terms) {
        lemma_fixpoint_stable(set![start], rules, terms, cap, m);
    }
}

/// An empty frontier yields nothing, however many generations are allowed.
pub proof fn lemma_empty_frontier(
    rules: Seq<(Seq<char>, Seq<char>)>,
    terms: Seq<Seq<char>>,
    fuel: nat,
)
    ensures
        explore(Set::empty(), rules, terms, fuel) == (Set::<Seq<char>>::empty(), 0nat),
{
}

/// The empty word is terminal-only, and when a generation derives it, it is
/// among the results.
pub proof fn lemma_empty_word(
    f: Set<Seq<char>>,
    rules: Seq<(Seq<char>, Seq<char>)>,
    terms: Seq<Seq<char>>,
    fuel: nat,
)
    requires
        fuel > 0,
        derived(f, rules).contains(Seq::empty()),
    ensures
        is_terminal_word(Seq::empty(), terms),
        explore(f, rules, terms, fuel).0.contains(Seq::empty()),
{
    let w = choose|w: Seq<char>| f.contains(w) && #[trigger] successors(w, rules).contains(Seq::empty());
    assert(f.contains(w));
    assert(f != Set::<Seq<char>>::empty());
    assert(terminal_part(derived(f, rules), terms).contains(Seq::empty()));
}

/// The frontier after `i` generations from `f`.
pub open spec fn frontier_at(
    f: Set<Seq<char>>,
    rules: Seq<(Seq<char>, Seq<char>)>,
    terms: Seq<Seq<char>>,
    i: nat,
) -> Set<Seq<char>>
    decreases i,
{
    if i == 0 {
        f
    } else {
        frontier_at(open_part(derived(f, rules), terms), rules, terms, (i - 1) as nat)
    }
}

/// Every terminal-only word derived in a generation that a run processes is
/// among the run's results.
pub proof fn lemma_explore_collects(
    f: Set<Seq<char>>,
    rules: Seq<(Seq<char>, Seq<char>)>,
    terms: Seq<Seq<char>>,
    fuel: nat,
    i: nat,
)
    requires
        i < explore(f, rules, terms, fuel).1,
    ensures
        forall|d: Seq<char>|
            #[trigger] terminal_part(derived(frontier_at(f, rules, terms, i), rules), terms).contains(d)
                ==> explore(f, rules, terms, fuel).0.contains(d),
    decreases i,
{
    let g = open_part(derived(f, rules), terms);
    let rest = explore(g, rules, terms, (fuel - 1) as nat);
    if i > 0 {
        lemma_explore_collects(g, rules, terms, (fuel - 1) as nat, (i - 1) as nat);
        assert(frontier_at(f, rules, terms, i) == frontier_at(g, rules, terms, (i - 1) as nat));
    }
    assert forall|d: Seq<char>|
        #[trigger] terminal_part(derived(frontier_at(f, rules, terms, i), rules), terms).contains(d)
            implies explore(f, rules, terms, fuel).0.contains(d) by {
        assert(explore(f, rules, terms, fuel).0 == terminal_part(derived(f, rules), terms).union(rest.0));
    }
}

/// The empty word reaches the results of a whole run whenever it is
/// produced: as the start word, or derived in any generation the run
/// processes.
pub proof fn lemma_empty_word_in_results(
    start: Seq<char>,
    rules: Seq<(Seq<char>, Seq<char>)>,
    terms: Seq<Seq<char>>,
    cap: nat,
    i: nat,
)
    requires
        start == Seq::<char>::empty() || (i < closure_of(start, rules, terms, cap).1 && derived(
            frontier_at(set![start], rules, terms, i),
            rules,
        ).contains(Seq::empty())),
    ensures
        closure_of(start, rules, terms, cap).0.contains(Seq::empty()),
{
    assert(is_terminal_word(Seq::<char>::empty(), terms));
    if start != Seq::<char>::empty() && !is_terminal_word(start, terms) {
        lemma_explore_collects(set![start], rules, terms, cap, i);
        assert(terminal_part(derived(frontier_at(set![start], rules, terms, i), rules), terms).contains(
            Seq::empty(),
        ));
    }
}

/// The count of a run is exactly the number of generations processed: each
/// of them ran on a non-empty frontier, and the run stopped at the fuel or at
/// the first empty frontier.
pub proof fn lemma_explore_count_exact(
    f: Set<Seq<char>>,
    rules: Seq<(Seq<char>, Seq<char>)>,
    terms: Seq<Seq<char>>,
    fuel: nat,
)
    ensures
        forall|i: nat|
            i < explore(f, rules, terms, fuel).1 ==> #[trigger] frontier_at(f, rules, terms, i)
                != Set::<Seq<char>>::empty(),
        explore(f, rules, terms, fuel).1 == fuel || frontier_at(
            f,
            rules,
            terms,
            explore(f, rules, terms, fuel).1,
        ) == Set::<Seq<char>>::empty(),
    decreases fuel,
{
    if fuel == 0 || f == Set::<Seq<char>>::empty() {
    } else {
        let g = open_part(derived(f, rules), terms);
        lemma_explore_count_exact(g, rules, terms, (fuel - 1) as nat);
        let n = explore(f, rules, terms, fuel).1;
        assert forall|i: nat| i < n implies #[trigger] frontier_at(f, rules, terms, i)
            != Set::<Seq<char>>::empty() by {
            if i > 0 {
                assert(frontier_at(f, rules, terms, i) == frontier_at(g, rules, terms, (i - 1) as nat));
            }
        }
        assert(frontier_at(f, rules, terms, n) == frontier_at(g, rules, terms, (n - 1) as nat));
    }
}

/// A generation over a frontier split among workers, with their findings
/// merged, derives the same words as one pass over the whole frontier: the
/// results do not depend on how the work is scheduled.
pub proof fn lemma_generation_split(
    f1: Set<Seq<char>>,
    f2: Set<Seq<char>>,
    rules: Seq<(Seq<char>, Seq<char>)>,
    terms: Seq<Seq<char>>,
)
    ensures
        derived(f1.union(f2), rules) == derived(f1, rules).union(derived(f2, rules)),
        terminal_part(derived(f1.union(f2), rules), terms) == terminal_part(derived(f1, rules), terms).union(
            terminal_part(derived(f2, rules), terms),
        ),
        open_part(derived(f1.union(f2), rules), terms) == open_part(derived(f1, rules), terms).union(
            open_part(derived(f2, rules), terms),
        ),
{
    let d = derived(f1.union(f2), rules);
    let e = derived(f1, rules).union(derived(f2, rules));
    assert forall|x: Seq<char>| d.contains(x) implies e.contains(x) by {
        let w = choose|w: Seq<char>| f1.union(f2).contains(w) && #[trigger] successors(w, rules).contains(x);
        if f1.contains(w) {
            assert(derived(f1, rules).contains(x));
        } else {
            assert(derived(f2, rules).contains(x));
        }
    }
    assert forall|x: Seq<char>| e.contains(x) implies d.contains(x) by {
        if derived(f1, rules).contains(x) {
            let w = choose|w: Seq<char>| f1.contains(w) && #[trigger] successors(w, rules).contains(x);
            assert(f1.union(f2).contains(w));
        } else {
            let w = choose|w: Seq<char>| f2.contains(w) && #[trigger] successors(w, rules).contains(x);
            assert(f1.union(f2).contains(w));
        }
    }
    assert(d =~= e);
    assert(terminal_part(d, terms) =~= terminal_part(derived(f1, rules), terms).union(
        terminal_part(derived(f2, rules), terms),
    ));
    assert(open_part(d, terms) =~= open_part(derived(f1, rules), terms).union(
        open_part(derived(f2, rules), terms),
    ));
}

} // verus!
