//! Rewrite rules and their precompiled matchers.
use vstd::prelude::*;
use crate::text::{derivations, lemma_key_occurrences, occurrences, rewrite_at, word_key, KEY_MARK};

verus! {

#[verifier::external_type_specification]
#[verifier::external_body]
pub struct ExAhoCorasick(aho_corasick::AhoCorasick);

#[verifier::external_type_specification]
#[verifier::external_body]
pub struct ExBuildError(aho_corasick::BuildError);

/// The patterns that an automaton searches for, in the order it was given them.
pub uninterp spec fn searched_patterns(a: aho_corasick::AhoCorasick) -> Seq<Seq<u8>>;

/// Longest pattern key, in bytes, that an automaton is built for. A single
/// pattern of this length needs about as many states, far below the limit
/// on state identifiers (`i32::MAX - 1`) at which a build fails.
pub const MAX_KEY_LEN: usize = 0x100_0000;

/// Longest rule pattern, in characters: four key bytes per character.
pub const MAX_PATTERN_LEN: usize = 0x40_0000;

/// Relies on `aho_corasick::AhoCorasick::new`: on success the automaton
/// searches for exactly the one pattern given. A build fails only when the
/// number of states, of patterns, or the length of a pattern exceeds a limit
/// near `i32::MAX`, so a single pattern of at most `MAX_KEY_LEN` bytes builds.
#[verifier::external_body]
fn build_automaton(pat: &Vec<u8>) -> (r: Result<aho_corasick::AhoCorasick, aho_corasick::BuildError>)
    ensures
        pat@.len() <= MAX_KEY_LEN ==> r is Ok,
        r matches Ok(a) ==> searched_patterns(a) == seq![pat@],
{
    aho_corasick::AhoCorasick::new([pat.as_slice()])
}

/// Relies on `aho_corasick::AhoCorasick::find_iter` under the default
/// (standard) match kind: for a single non-empty pattern it reports the
/// leftmost non-overlapping matches, resuming after each match's end.
#[verifier::external_body]
fn match_starts(a: &aho_corasick::AhoCorasick, hay: &Vec<u8>) -> (r: Vec<usize>)
    requires
        searched_patterns(*a).len() == 1,
        searched_patterns(*a)[0].len() > 0,
    ensures
        r@.map_values(|x: usize| x as int) == occurrences(searched_patterns(*a)[0], hay@, 0),
{
    a.find_iter(hay.as_slice()).map(|m| m.start()).collect()
}

/// Relies on `String::push`: appends one character.
#[verifier::external_body]
pub(crate) fn push_char(s: &mut String, c: char)
    ensures
        final(s)@ == old(s)@.push(c),
{
    s.push(c)
}

/// The characters of a string.
pub(crate) fn chars_of(s: &str) -> (r: Vec<char>)
    ensures
        r@ == s@,
{
    let n = s.unicode_len();
    let mut r: Vec<char> = Vec::new();
    let mut i: usize = 0;
    while i < n
        invariant
            n == s@.len(),
            i <= n,
            r@ == s@.subrange(0, i as int),
        decreases n - i,
    {
        r.push(s.get_char(i));
        i = i + 1;
    }
    assert(r@ =~= s@);
    r
}

/// The search key of a word given by its characters.
fn key_of(s: &Vec<char>) -> (r: Vec<u8>)
    ensures
        r@ == word_key(s@),
{
    let mut r: Vec<u8> = Vec::new();
    let mut i: usize = 0;
    while i < s.len()
        invariant
            i <= s@.len(),
            r@ == word_key(s@.subrange(0, i as int)),
        decreases s@.len() - i,
    {
        let x = s[i] as u32;
        proof {
            vstd::utf8::char_is_scalar(s@[i as int]);
        }
        assert(x / 16384 < 256) by (nonlinear_arith)
            requires x <= 0x10FFFF;
        r.push(KEY_MARK);
        r.push((x / 16384) as u8);
        r.push(((x / 128) % 128) as u8);
        r.push((x % 128) as u8);
        proof {
            let p = s@.subrange(0, i as int);
            let q = s@.subrange(0, i + 1);
            assert forall|j: int| 0 <= j < 4 * q.len() implies r@[j] == word_key(q)[j] by {
                assert((4 * 0 + j) / 4 == j / 4 && 0 <= j % 4 < 4) by (nonlinear_arith)
                    requires 0 <= j;
                if j < 4 * p.len() {
                    assert(j / 4 < p.len()) by (nonlinear_arith)
                        requires 0 <= j < 4 * p.len();
                } else {
                    assert(j / 4 == i && j % 4 == j - 4 * i) by (nonlinear_arith)
                        requires 4 * i <= j < 4 * i + 4;
                }
            }
            assert(r@ =~= word_key(q));
        }
        i = i + 1;
    }
    assert(s@.subrange(0, s@.len() as int) =~= s@);
    r
}

/// Why a rule could not be compiled.
#[derive(Debug, PartialEq, Eq, Structural)]
pub enum RuleError {
    /// The source pattern is empty: it would occur at every position.
    EmptyPattern,
    /// The pattern is longer than `MAX_PATTERN_LEN` characters.
    PatternTooLong,
}

/// A rewrite rule `from -> to` with its precompiled matcher.
pub struct Rule {
    from: String,
    to: String,
    to_chars: Vec<char>,
    aho: aho_corasick::AhoCorasick,
}

impl Rule {
    #[verifier::type_invariant]
    spec fn inv(&self) -> bool {
        &&& self.from@.len() > 0
        &&& self.to_chars@ == self.to@
        &&& searched_patterns(self.aho) == seq![word_key(self.from@)]
    }

    /// The source pattern.
    pub closed spec fn from_view(&self) -> Seq<char> {
        self.from@
    }

    /// The replacement.
    pub closed spec fn to_view(&self) -> Seq<char> {
        self.to@
    }

    /// Compiles the rule `from -> to`. The pattern must be non-empty and at
    /// most `MAX_PATTERN_LEN` characters long.
    pub fn new(from: String, to: String) -> (r: Result<Rule, RuleError>)
        ensures
            from@.len() == 0 <==> r == Err::<Rule, RuleError>(RuleError::EmptyPattern),
            from@.len() > MAX_PATTERN_LEN <==> r == Err::<Rule, RuleError>(
                RuleError::PatternTooLong,
            ),
            0 < from@.len() <= MAX_PATTERN_LEN ==> (r matches Ok(rule) && rule.from_view()
                == from@ && rule.to_view() == to@),
    {
        let n = from.as_str().unicode_len();
        if n == 0 {
            return Err(RuleError::EmptyPattern);
        }
        if n > MAX_PATTERN_LEN {
            return Err(RuleError::PatternTooLong);
        }
        let from_chars = chars_of(from.as_str());
        let key = key_of(&from_chars);
        let to_chars = chars_of(to.as_str());
        match build_automaton(&key) {
            Ok(aho) => Ok(Rule { from, to, to_chars, aho }),
            Err(_) => Err(RuleError::PatternTooLong),
        }
    }

    /// The source pattern.
    pub fn from(&self) -> (r: &str)
        ensures
            r@ == self.from_view(),
            r@.len() > 0,
    {
        proof {
            use_type_invariant(self);
        }
        self.from.as_str()
    }

    /// The replacement.
    pub fn to(&self) -> (r: &str)
        ensures
            r@ == self.to_view(),
    {
        self.to.as_str()
    }
}

/// The word `w` with the occurrence of the pattern of length `n` at `k`
/// replaced by `to`.
fn splice(w: &Vec<char>, k: usize, n: usize, to: &Vec<char>) -> (r: String)
    requires
        k + n <= w@.len(),
    ensures
        r@ == w@.subrange(0, k as int) + to@ + w@.subrange(k + n, w@.len() as int),
{
    let len = w.len();
    let mut r = String::new();
    let mut i: usize = 0;
    while i < k
        invariant
            k + n <= w@.len(),
            i <= k,
            r@ == w@.subrange(0, i as int),
        decreases k - i,
    {
        push_char(&mut r, w[i]);
        i = i + 1;
        assert(r@ =~= w@.subrange(0, i as int));
    }
    let ghost head = r@;
    let mut j: usize = 0;
    while j < to.len()
        invariant
            k + n <= w@.len(),
            j <= to@.len(),
            r@ == head + to@.subrange(0, j as int),
        decreases to@.len() - j,
    {
        push_char(&mut r, to[j]);
        j = j + 1;
        assert(r@ =~= head + to@.subrange(0, j as int));
    }
    assert(to@.subrange(0, to@.len() as int) =~= to@);
    let ghost mid = r@;
    assert(k + n <= len);
    let mut m: usize = k + n;
    while m < w.len()
        invariant
            k + n <= m <= w@.len(),
            r@ == mid + w@.subrange(k + n, m as int),
        decreases w@.len() - m,
    {
        push_char(&mut r, w[m]);
        m = m + 1;
        assert(r@ =~= mid + w@.subrange(k + n, m as int));
    }
    r
}

/// Appends to `words_rule_applied` one derived word for each leftmost
/// non-overlapping occurrence of the rule's pattern in `word`: that word with
/// this one occurrence replaced, all other text unchanged.
pub fn apply_rule(words_rule_applied: &mut Vec<String>, rule: &Rule, word: &str)
    ensures
        final(words_rule_applied)@.map_values(|s: String| s@) == old(
            words_rule_applied,
        )@.map_values(|s: String| s@) + derivations(word@, rule.from_view(), rule.to_view()),
{
    proof {
        use_type_invariant(rule);
    }
    let w = chars_of(word);
    let key = key_of(&w);
    let starts = match_starts(&rule.aho, &key);
    let n = rule.from.unicode_len();
    let ghost from = rule.from@;
    let ghost to = rule.to@;
    let ghost occ = occurrences(from, w@, 0);
    proof {
        lemma_key_occurrences(from, w@, 0);
        assert(starts@.map_values(|x: usize| x as int) == occ.map_values(|x: int| 4 * x));
        assert(starts@.len() == occ.len()) by {
            assert(starts@.map_values(|x: usize| x as int).len() == starts@.len());
        }
        lemma_occurrences_fit(from, w@, 0);
        assert forall|j: int| 0 <= j < occ.len() implies 4 * occ[j] == #[trigger] starts@[j] as int by {
            assert(starts@.map_values(|x: usize| x as int)[j] == occ.map_values(|x: int| 4 * x)[j]);
        }
    }
    let ghost base = words_rule_applied@.map_values(|s: String| s@);
    let mut i: usize = 0;
    while i < starts.len()
        invariant
            from == rule.from@,
            to == rule.to@,
            to == rule.to_chars@,
            n == from.len(),
            w@ == word@,
            occ == occurrences(from, w@, 0),
            starts@.len() == occ.len(),
            forall|j: int| 0 <= j < occ.len() ==> 4 * occ[j] == #[trigger] starts@[j] as int,
            forall|j: int| 0 <= j < occ.len() ==> 0 <= #[trigger] occ[j] && occ[j] + from.len() <= w@.len(),
            i <= starts@.len(),
            words_rule_applied@.map_values(|s: String| s@) == base + derivations(
                w@,
                from,
                to,
            ).subrange(0, i as int),
        decreases starts@.len() - i,
    {
        proof {
            assert(starts@.map_values(|x: usize| x as int)[i as int] == occ.map_values(|x: int| 4 * x)[i as int]);
        }
        let k = starts[i] / 4;
        let d = splice(&w, k, n, &rule.to_chars);
        let ghost prev = words_rule_applied@;
        words_rule_applied.push(d);
        proof {
            assert(words_rule_applied@.map_values(|s: String| s@) =~= prev.map_values(|s: String| s@).push(d@));
            assert(k == occ[i as int]);
            assert(d@ == rewrite_at(w@, from, to, k as int));
            assert(derivations(w@, from, to)[i as int] == rewrite_at(w@, from, to, occ[i as int]));
            assert(words_rule_applied@.map_values(|s: String| s@) =~= base + derivations(
                w@,
                from,
                to,
            ).subrange(0, i + 1));
        }
        i = i + 1;
    }
    proof {
        assert(derivations(w@, from, to).subrange(0, i as int) =~= derivations(w@, from, to));
    }
}

/// Every occurrence lies within the text, at or after the scan position.
pub proof fn lemma_occurrences_fit<A>(pat: Seq<A>, text: Seq<A>, pos: int)
    ensures
        forall|j: int|
            0 <= j < occurrences(pat, text, pos).len() ==> pos <= #[trigger] occurrences(
                pat,
                text,
                pos,
            )[j] && occurrences(pat, text, pos)[j] + pat.len() <= text.len(),
    decreases text.len() - pos,
{
    if pat.len() == 0 || pos < 0 || pos + pat.len() > text.len() {
    } else if text.subrange(pos, pos + pat.len()) == pat {
        lemma_occurrences_fit(pat, text, pos + pat.len());
        let occ = occurrences(pat, text, pos);
        let rest = occurrences(pat, text, pos + pat.len());
        assert(occ == seq![pos] + rest);
        assert forall|j: int| 0 <= j < occ.len() implies pos <= #[trigger] occ[j] && occ[j]
            + pat.len() <= text.len() by {
            if j > 0 {
                assert(occ[j] == rest[j - 1]);
            }
        }
    } else {
        lemma_occurrences_fit(pat, text, pos + 1);
        assert(occurrences(pat, text, pos) == occurrences(pat, text, pos + 1));
    }
}

} // verus!
