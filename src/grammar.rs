//! The grammar value and the terminal classifier.
use vstd::prelude::*;
use crate::matcher::{chars_of, Rule};

verus! {

/// A word is terminal-only when each of its characters, taken as a
/// one-character string, is one of the terminal symbols.
pub open spec fn is_terminal_word(w: Seq<char>, terms: Seq<Seq<char>>) -> bool {
    forall|i: int| 0 <= i < w.len() ==> terms.contains(#[trigger] seq![w[i]])
}

/// The string views of a list of strings.
pub open spec fn views(v: Seq<String>) -> Seq<Seq<char>> {
    v.map_values(|s: String| s@)
}

/// A grammar: symbols, start word and ordered rewrite rules.
pub struct Grammar {
    /// Nonterminal symbols; informational only.
    pub var_symbols: Vec<String>,
    /// Terminal symbols.
    pub term_symbols: Vec<String>,
    /// The start word.
    pub start_symbol: String,
    /// The rewrite rules.
    pub rules: Vec<Rule>,
}

impl Grammar {
    /// The terminal symbols as character sequences.
    pub open spec fn terms(&self) -> Seq<Seq<char>> {
        views(self.term_symbols@)
    }

    /// The rules as pairs (pattern, replacement).
    pub open spec fn rule_pairs(&self) -> Seq<(Seq<char>, Seq<char>)> {
        self.rules@.map_values(|r: Rule| (r.from_view(), r.to_view()))
    }
}

/// Whether `c`, as a one-character string, is one of `terms`.
fn is_term_char(c: char, terms: &Vec<String>) -> (r: bool)
    ensures
        r == views(terms@).contains(seq![c]),
{
    let mut i: usize = 0;
    while i < terms.len()
        invariant
            i <= terms@.len(),
            forall|m: int| 0 <= m < i ==> terms@[m]@ != seq![c],
        decreases terms@.len() - i,
    {
        let t = chars_of(terms[i].as_str());
        if t.len() == 1 && t[0] == c {
            proof {
                assert(t@ =~= seq![c]);
                assert(views(terms@)[i as int] == seq![c]);
            }
            return true;
        }
        proof {
            if t@ == seq![c] {
                assert(t@.len() == 1 && t@[0] == c);
            }
        }
        i = i + 1;
    }
    proof {
        if views(terms@).contains(seq![c]) {
            let m = choose|m: int| 0 <= m < views(terms@).len() && views(terms@)[m] == seq![c];
            assert(terms@[m]@ == seq![c]);
        }
    }
    false
}

/// Whether every character of `s` is a terminal symbol of `grammar`.
pub fn is_only_terms(s: &str, grammar: &Grammar) -> (r: bool)
    ensures
        r == is_terminal_word(s@, grammar.terms()),
{
    let w = chars_of(s);
    let mut i: usize = 0;
    while i < w.len()
        invariant
            w@ == s@,
            i <= w@.len(),
            forall|m: int| 0 <= m < i ==> grammar.terms().contains(#[trigger] seq![w@[m]]),
        decreases w@.len() - i,
    {
        if !is_term_char(w[i], &grammar.term_symbols) {
            return false;
        }
        i = i + 1;
    }
    true
}

} // verus!
