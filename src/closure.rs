//! The generation-by-generation closure of a grammar.
use vstd::prelude::*;
use rustc_hash::FxHashSet;
use crate::grammar::{is_only_terms, is_terminal_word, views, Grammar};
use crate::matcher::apply_rule;
use crate::text::derivations;
use crate::word_set::{insert_word, listed, new_word_set, word_set, words_in};

verus! {

/// The words that one application of one of `rules` derives from `w`.
pub open spec fn successors(w: Seq<char>, rules: Seq<(Seq<char>, Seq<char>)>) -> Set<Seq<char>> {
    Set::new(
        |d: Seq<char>|
            exists|j: int|
                0 <= j < rules.len() && #[trigger] derivations(w, rules[j].0, rules[j].1).contains(
                    d,
                ),
    )
}

/// The words that one generation derives from the frontier `f`.
pub open spec fn derived(f: Set<Seq<char>>, rules: Seq<(Seq<char>, Seq<char>)>) -> Set<Seq<char>> {
    Set::new(|d: Seq<char>| exists|w: Seq<char>| f.contains(w) && #[trigger] successors(w, rules).contains(d))
}

/// The terminal-only words of `s`.
pub open spec fn terminal_part(s: Set<Seq<char>>, terms: Seq<Seq<char>>) -> Set<Seq<char>> {
    s.filter(|d: Seq<char>| is_terminal_word(d, terms))
}

/// The words of `s` that are not terminal-only.
pub open spec fn open_part(s: Set<Seq<char>>, terms: Seq<Seq<char>>) -> Set<Seq<char>> {
    s.filter(|d: Seq<char>| !is_terminal_word(d, terms))
}

/// Running from frontier `f` for at most `fuel` generations: the terminal
/// words found, and the number of generations run. A run stops early when
/// the frontier is empty.
pub open spec fn explore(
    f: Set<Seq<char>>,
    rules: Seq<(Seq<char>, Seq<char>)>,
    terms: Seq<Seq<char>>,
    fuel: nat,
) -> (Set<Seq<char>>, nat)
    decreases fuel,
{
    if fuel == 0 || f == Set::<Seq<char>>::empty() {
        (Set::empty(), 0)
    } else {
        let d = derived(f, rules);
        let rest = explore(open_part(d, terms), rules, terms, (fuel - 1) as nat);
        (terminal_part(d, terms).union(rest.0), rest.1 + 1)
    }
}

/// The whole run from `start` with at most `cap` generations. A terminal
/// start word is a result at once, and no generation runs.
pub open spec fn closure_of(
    start: Seq<char>,
    rules: Seq<(Seq<char>, Seq<char>)>,
    terms: Seq<Seq<char>>,
    cap: nat,
) -> (Set<Seq<char>>, nat) {
    if is_terminal_word(start, terms) {
        (set![start], 0)
    } else {
        explore(set![start], rules, terms, cap)
    }
}

/// The generation cap: `None` runs until the frontier is empty, bounded only
/// by the counter's range.
pub open spec fn cap_of(max_iters: Option<usize>) -> nat {
    match max_iters {
        Some(n) => n as nat,
        None => usize::MAX as nat,
    }
}

/// Adds `d` to the found words `acc`: to the results when it is
/// terminal-only, else to the next frontier.
proof fn lemma_sort_one(
    acc: Set<Seq<char>>,
    r0: Set<Seq<char>>,
    d: Seq<char>,
    terms: Seq<Seq<char>>,
)
    ensures
        r0.union(terminal_part(acc.insert(d), terms)) == if is_terminal_word(d, terms) {
            r0.union(terminal_part(acc, terms)).insert(d)
        } else {
            r0.union(terminal_part(acc, terms))
        },
        open_part(acc.insert(d), terms) == if is_terminal_word(d, terms) {
            open_part(acc, terms)
        } else {
            open_part(acc, terms).insert(d)
        },
{
    assert(r0.union(terminal_part(acc.insert(d), terms)) =~= if is_terminal_word(d, terms) {
        r0.union(terminal_part(acc, terms)).insert(d)
    } else {
        r0.union(terminal_part(acc, terms))
    });
    assert(open_part(acc.insert(d), terms) =~= if is_terminal_word(d, terms) {
        open_part(acc, terms)
    } else {
        open_part(acc, terms).insert(d)
    });
}

/// One generation over the frontier listed in `frontier`: the terminal-only
/// derived words join `results`, the others form the returned next frontier.
fn generation(grammar: &Grammar, frontier: &Vec<String>, results: &mut FxHashSet<String>) -> (next:
    FxHashSet<String>)
    ensures
        word_set(*final(results)) == word_set(*old(results)).union(
            terminal_part(derived(listed(frontier@), grammar.rule_pairs()), grammar.terms()),
        ),
        word_set(next) == open_part(derived(listed(frontier@), grammar.rule_pairs()), grammar.terms()),
{
    let ghost rules = grammar.rule_pairs();
    let ghost terms = grammar.terms();
    let ghost r0 = word_set(*results);
    let mut next = new_word_set();
    let ghost mut acc: Set<Seq<char>> = Set::empty();
    proof {
        assert(r0.union(terminal_part(acc, terms)) =~= r0);
        assert(open_part(acc, terms) =~= Set::empty());
    }
    let mut i: usize = 0;
    while i < frontier.len()
        invariant
            rules == grammar.rule_pairs(),
            terms == grammar.terms(),
            i <= frontier@.len(),
            acc == Set::new(
                |d: Seq<char>|
                    exists|m: int| 0 <= m < i && #[trigger] successors(frontier@[m]@, rules).contains(d),
            ),
            word_set(*results) == r0.union(terminal_part(acc, terms)),
            word_set(next) == open_part(acc, terms),
        decreases frontier@.len() - i,
    {
        let word = &frontier[i];
        let ghost acc_i = acc;
        let mut j: usize = 0;
        while j < grammar.rules.len()
            invariant
                rules == grammar.rule_pairs(),
                terms == grammar.terms(),
                i < frontier@.len(),
                word == frontier@[i as int],
                j <= rules.len(),
                acc == acc_i.union(
                    Set::new(
                        |d: Seq<char>|
                            exists|jj: int|
                                0 <= jj < j && #[trigger] derivations(
                                    word@,
                                    rules[jj].0,
                                    rules[jj].1,
                                ).contains(d),
                    ),
                ),
                word_set(*results) == r0.union(terminal_part(acc, terms)),
                word_set(next) == open_part(acc, terms),
            decreases grammar.rules@.len() - j,
        {
            let mut ds: Vec<String> = Vec::new();
            apply_rule(&mut ds, &grammar.rules[j], word.as_str());
            let ghost derivs = derivations(word@, rules[j as int].0, rules[j as int].1);
            proof {
                assert(views(Seq::<String>::empty()) =~= Seq::<Seq<char>>::empty());
                assert(views(ds@) =~= derivs);
            }
            let ghost acc_j = acc;
            let mut k: usize = 0;
            while k < ds.len()
                invariant
                    views(ds@) == derivs,
                    k <= ds@.len(),
                    acc == acc_j.union(Set::new(|d: Seq<char>| exists|m: int| 0 <= m < k && ds@[m]@ == d)),
                    terms == grammar.terms(),
                    word_set(*results) == r0.union(terminal_part(acc, terms)),
                    word_set(next) == open_part(acc, terms),
                decreases ds@.len() - k,
            {
                let d = ds[k].clone();
                let ghost acc_k = acc;
                proof {
                    lemma_sort_one(acc, r0, d@, terms);
                    acc = acc.insert(d@);
                }
                if is_only_terms(d.as_str(), grammar) {
                    insert_word(results, d);
                } else {
                    insert_word(&mut next, d);
                }
                k = k + 1;
                proof {
                    assert(acc =~= acc_j.union(
                        Set::new(|d: Seq<char>| exists|m: int| 0 <= m < k && ds@[m]@ == d),
                    )) by {
                        assert forall|x: Seq<char>|
                            (exists|m: int| 0 <= m < k && ds@[m]@ == x) implies acc_k.contains(x) || x == ds@[k - 1]@ by {
                            let m = choose|m: int| 0 <= m < k && ds@[m]@ == x;
                            if m < k - 1 {
                                assert(acc_k.contains(x));
                            }
                        }
                    }
                }
            }
            j = j + 1;
            proof {
                let jo = j - 1;
                assert forall|x: Seq<char>| derivs.contains(x) <==> (exists|m: int| 0 <= m < ds@.len() && ds@[m]@ == x) by {
                    if derivs.contains(x) {
                        let m = choose|m: int| 0 <= m < derivs.len() && derivs[m] == x;
                        assert(views(ds@)[m] == ds@[m]@);
                    }
                    if exists|m: int| 0 <= m < ds@.len() && ds@[m]@ == x {
                        let m = choose|m: int| 0 <= m < ds@.len() && ds@[m]@ == x;
                        assert(views(ds@)[m] == ds@[m]@);
                    }
                }
                let upto = Set::new(
                    |d: Seq<char>|
                        exists|jj: int|
                            0 <= jj < j && #[trigger] derivations(
                                word@,
                                rules[jj].0,
                                rules[jj].1,
                            ).contains(d),
                );
                assert forall|x: Seq<char>| acc.contains(x) implies acc_i.union(upto).contains(x) by {
                    if !acc_j.contains(x) {
                        assert(derivs.contains(x));
                        assert(derivations(word@, rules[jo as int].0, rules[jo as int].1).contains(x));
                    } else if !acc_i.contains(x) {
                        let jj = choose|jj: int|
                            0 <= jj < jo && #[trigger] derivations(word@, rules[jj].0, rules[jj].1).contains(x);
                        assert(derivations(word@, rules[jj].0, rules[jj].1).contains(x));
                    }
                }
                assert forall|x: Seq<char>| acc_i.union(upto).contains(x) implies acc.contains(x) by {
                    if !acc_i.contains(x) {
                        let jj = choose|jj: int|
                            0 <= jj < j && #[trigger] derivations(word@, rules[jj].0, rules[jj].1).contains(x);
                        if jj == jo {
                            assert(derivs.contains(x));
                        } else {
                            assert(derivations(word@, rules[jj].0, rules[jj].1).contains(x));
                        }
                    }
                }
                assert(acc =~= acc_i.union(upto));
            }
        }
        i = i + 1;
        proof {
            let io = i - 1;
            assert(rules.len() == grammar.rules@.len());
            let upto = Set::new(
                |d: Seq<char>|
                    exists|m: int| 0 <= m < i && #[trigger] successors(frontier@[m]@, rules).contains(d),
            );
            assert forall|x: Seq<char>| acc.contains(x) implies upto.contains(x) by {
                if !acc_i.contains(x) {
                    let jj = choose|jj: int|
                        0 <= jj < rules.len() && #[trigger] derivations(word@, rules[jj].0, rules[jj].1).contains(x);
                    assert(successors(frontier@[io as int]@, rules).contains(x));
                } else {
                    let m = choose|m: int| 0 <= m < io && #[trigger] successors(frontier@[m]@, rules).contains(x);
                    assert(successors(frontier@[m]@, rules).contains(x));
                }
            }
            assert forall|x: Seq<char>| upto.contains(x) implies acc.contains(x) by {
                let m = choose|m: int| 0 <= m < i && #[trigger] successors(frontier@[m]@, rules).contains(x);
                if m == io {
                    let jj = choose|jj: int|
                        0 <= jj < rules.len() && #[trigger] derivations(frontier@[m]@, rules[jj].0, rules[jj].1).contains(x);
                    assert(derivations(word@, rules[jj].0, rules[jj].1).contains(x));
                } else {
                    assert(acc_i.contains(x));
                }
            }
            assert(acc =~= upto);
        }
    }
    proof {
        let f = listed(frontier@);
        assert(acc =~= derived(f, rules)) by {
            assert forall|x: Seq<char>| acc.contains(x) implies derived(f, rules).contains(x) by {
                let m = choose|m: int| 0 <= m < frontier@.len() && #[trigger] successors(frontier@[m]@, rules).contains(x);
                assert(f.contains(frontier@[m]@));
            }
            assert forall|x: Seq<char>| derived(f, rules).contains(x) implies acc.contains(x) by {
                let w = choose|w: Seq<char>| f.contains(w) && #[trigger] successors(w, rules).contains(x);
                let m = choose|m: int| 0 <= m < frontier@.len() && frontier@[m]@ == w;
                assert(successors(frontier@[m]@, rules).contains(x));
            }
        }
    }
    next
}

/// Runs the closure of `grammar` for at most `max_iters` generations
/// (`None`: until the frontier is empty). Returns the number of generations
/// run and every terminal-only word found.
pub fn run_closure(grammar: &Grammar, max_iters: Option<usize>) -> (r: (usize, FxHashSet<String>))
    ensures
        (word_set(r.1), r.0 as nat) == closure_of(
            grammar.start_symbol@,
            grammar.rule_pairs(),
            grammar.terms(),
            cap_of(max_iters),
        ),
{
    let ghost rules = grammar.rule_pairs();
    let ghost terms = grammar.terms();
    let cap: usize = match max_iters {
        Some(n) => n,
        None => usize::MAX,
    };
    let mut results = new_word_set();
    let mut frontier = new_word_set();
    if is_only_terms(grammar.start_symbol.as_str(), grammar) {
        insert_word(&mut results, grammar.start_symbol.clone());
        proof {
            assert(Set::<Seq<char>>::empty().insert(grammar.start_symbol@) =~= set![grammar.start_symbol@]);
        }
        return (0, results);
    }
    insert_word(&mut frontier, grammar.start_symbol.clone());
    proof {
        assert(Set::<Seq<char>>::empty().insert(grammar.start_symbol@) =~= set![grammar.start_symbol@]);
        let e = explore(set![grammar.start_symbol@], rules, terms, cap as nat);
        assert(Set::<Seq<char>>::empty().union(e.0) =~= e.0);
    }
    let ghost total = closure_of(grammar.start_symbol@, rules, terms, cap_of(max_iters));
    let mut iters: usize = 0;
    loop
        invariant
            rules == grammar.rule_pairs(),
            terms == grammar.terms(),
            iters <= cap,
            cap as nat == cap_of(max_iters),
            !is_terminal_word(grammar.start_symbol@, terms),
            total == (word_set(results).union(
                explore(word_set(frontier), rules, terms, (cap - iters) as nat).0,
            ), (iters + explore(word_set(frontier), rules, terms, (cap - iters) as nat).1) as nat),
        ensures
            total == (word_set(results), iters as nat),
        decreases cap - iters,
    {
        let ghost f = word_set(frontier);
        if iters >= cap {
            proof {
                assert(word_set(results).union(Set::empty()) =~= word_set(results));
            }
            break;
        }
        let words = words_in(&frontier);
        if words.len() == 0 {
            proof {
                assert(f =~= Set::<Seq<char>>::empty());
                assert(word_set(results).union(Set::empty()) =~= word_set(results));
            }
            break;
        }
        proof {
            assert(f.contains(words@[0]@));
        }
        let ghost before = word_set(results);
        let next = generation(grammar, &words, &mut results);
        proof {
            let d = derived(f, rules);
            let rest = explore(open_part(d, terms), rules, terms, (cap - iters - 1) as nat);
            assert(before.union(terminal_part(d, terms).union(rest.0)) =~= word_set(results).union(rest.0));
        }
        frontier = next;
        iters = iters + 1;
    }
    (iters, results)
}

} // verus!
