//! Words as character sequences: leftmost non-overlapping occurrences of a
//! pattern, single-occurrence rewriting, and the fixed-width byte key under
//! which words are searched.
use vstd::prelude::*;

verus! {

/// Start positions of the leftmost non-overlapping occurrences of `pat` in
/// `text`, scanning from position `pos`: once an occurrence is taken, the
/// scan resumes at its end. An empty pattern has no occurrences.
pub open spec fn occurrences<A>(pat: Seq<A>, text: Seq<A>, pos: int) -> Seq<int>
    decreases text.len() - pos,
{
    if pat.len() == 0 || pos < 0 || pos + pat.len() > text.len() {
        Seq::empty()
    } else if text.subrange(pos, pos + pat.len()) == pat {
        seq![pos] + occurrences(pat, text, pos + pat.len())
    } else {
        occurrences(pat, text, pos + 1)
    }
}

/// `w` with the single occurrence of `from` that starts at `k` replaced by `to`.
pub open spec fn rewrite_at(w: Seq<char>, from: Seq<char>, to: Seq<char>, k: int) -> Seq<char> {
    w.subrange(0, k) + to + w.subrange(k + from.len(), w.len() as int)
}

/// One derived word per occurrence of `from` in `w`, in order of occurrence.
pub open spec fn derivations(w: Seq<char>, from: Seq<char>, to: Seq<char>) -> Seq<Seq<char>> {
    occurrences(from, w, 0).map_values(|k: int| rewrite_at(w, from, to, k))
}

/// Marker byte that opens the key of every character.
pub const KEY_MARK: u8 = 0xFF;

/// Four bytes for one character: the marker, then its scalar value in three
/// base-128 digits, most significant first.
pub open spec fn char_key(c: char) -> Seq<u8> {
    seq![
        KEY_MARK,
        ((c as u32) / 16384) as u8,
        (((c as u32) / 128) % 128) as u8,
        ((c as u32) % 128) as u8,
    ]
}

/// The search key of a word: the keys of its characters, concatenated.
pub open spec fn word_key(s: Seq<char>) -> Seq<u8> {
    Seq::new(4 * s.len(), |i: int| char_key(s[i / 4])[i % 4])
}

proof fn lemma_div_mod4(k: int, i: int)
    requires
        0 <= i,
    ensures
        (4 * k + i) / 4 == k + i / 4,
        (4 * k + i) % 4 == i % 4,
        0 <= i % 4 < 4,
        i == 4 * (i / 4) + i % 4,
{
    assert((4 * k + i) / 4 == k + i / 4) by (nonlinear_arith)
        requires 0 <= i;
    assert((4 * k + i) % 4 == i % 4) by (nonlinear_arith)
        requires 0 <= i;
    assert(0 <= i % 4 < 4 && i == 4 * (i / 4) + i % 4) by (nonlinear_arith)
        requires 0 <= i;
}

proof fn lemma_char_key_injective(a: char, b: char)
    requires
        char_key(a) == char_key(b),
    ensures
        a == b,
{
    let x = a as u32;
    let y = b as u32;
    vstd::utf8::char_is_scalar(a);
    vstd::utf8::char_is_scalar(b);
    assert(char_key(a)[1] == char_key(b)[1]);
    assert(char_key(a)[2] == char_key(b)[2]);
    assert(char_key(a)[3] == char_key(b)[3]);
    assert(x <= 0x10FFFF && y <= 0x10FFFF);
    assert(x == y) by (nonlinear_arith)
        requires
            x <= 0x10FFFF,
            y <= 0x10FFFF,
            ((x / 16384) as u8) == ((y / 16384) as u8),
            (((x / 128) % 128) as u8) == (((y / 128) % 128) as u8),
            ((x % 128) as u8) == ((y % 128) as u8),
    ;
    vstd::utf8::char_u32_cast(a, x);
    vstd::utf8::char_u32_cast(b, y);
}

/// Only the first byte of a character's key can equal the marker.
proof fn lemma_key_mark(s: Seq<char>, i: int)
    requires
        0 <= i < 4 * s.len(),
    ensures
        (word_key(s)[i] == KEY_MARK) == (i % 4 == 0),
{
    lemma_div_mod4(0, i);
    let c = s[i / 4];
    vstd::utf8::char_is_scalar(c);
    let x = c as u32;
    assert(x / 16384 < 128 && (x / 128) % 128 < 128 && x % 128 < 128) by (nonlinear_arith)
        requires x <= 0x10FFFF;
}

/// A window of a word's key taken at a character boundary equals the key of
/// a pattern exactly when the characters there equal the pattern.
proof fn lemma_key_window(t: Seq<char>, p: Seq<char>, k: int)
    requires
        0 <= k,
        k + p.len() <= t.len(),
    ensures
        (word_key(t).subrange(4 * k, 4 * k + 4 * p.len()) == word_key(p)) == (t.subrange(
            k,
            k + p.len(),
        ) == p),
{
    let tk = word_key(t).subrange(4 * k, 4 * k + 4 * p.len());
    if t.subrange(k, k + p.len()) == p {
        assert forall|i: int| 0 <= i < 4 * p.len() implies tk[i] == word_key(p)[i] by {
            lemma_div_mod4(k, i);
            assert(t[k + i / 4] == t.subrange(k, k + p.len())[i / 4]);
        }
        assert(tk =~= word_key(p));
    }
    if tk == word_key(p) {
        assert forall|j: int| 0 <= j < p.len() implies t.subrange(k, k + p.len())[j] == p[j] by {
            assert forall|m: int| 0 <= m < 4 implies char_key(t[k + j])[m] == char_key(p[j])[m] by {
                lemma_div_mod4(k + j, m);
                lemma_div_mod4(j, m);
                assert(tk[4 * j + m] == word_key(p)[4 * j + m]);
                assert(4 * k + (4 * j + m) == 4 * (k + j) + m);
            }
            assert(char_key(t[k + j]) =~= char_key(p[j]));
            lemma_char_key_injective(t[k + j], p[j]);
        }
        assert(t.subrange(k, k + p.len()) =~= p);
    }
}

/// Occurrences of a pattern's key in a word's key, scanned from a character
/// boundary, are the occurrences of the pattern in the word, scaled by four.
pub proof fn lemma_key_occurrences(p: Seq<char>, t: Seq<char>, k: int)
    requires
        0 <= k <= t.len(),
    ensures
        occurrences(word_key(p), word_key(t), 4 * k) == occurrences(p, t, k).map_values(
            |x: int| 4 * x,
        ),
    decreases t.len() - k,
{
    let bp = word_key(p);
    let bt = word_key(t);
    if p.len() == 0 || k + p.len() > t.len() {
        assert(occurrences(p, t, k).map_values(|x: int| 4 * x) =~= Seq::empty());
    } else {
        lemma_key_window(t, p, k);
        if t.subrange(k, k + p.len()) == p {
            lemma_key_occurrences(p, t, k + p.len());
            assert(4 * k + bp.len() == 4 * (k + p.len()));
            assert(occurrences(p, t, k).map_values(|x: int| 4 * x) =~= seq![4 * k]
                + occurrences(p, t, k + p.len()).map_values(|x: int| 4 * x));
        } else {
            assert forall|j: int| 1 <= j < 4 implies #[trigger] bt[4 * k + j] != bp[0] by {
                lemma_key_mark(t, 4 * k + j);
                lemma_key_mark(p, 0);
                lemma_div_mod4(k, j);
            }
            assert forall|j: int|
                #![trigger occurrences(bp, bt, 4 * k + j)]
                1 <= j < 4 implies occurrences(bp, bt, 4 * k + j) == occurrences(
                bp,
                bt,
                4 * k + j + 1,
            ) by {
                if 4 * k + j + bp.len() <= bt.len() {
                    assert(bt.subrange(4 * k + j, 4 * k + j + bp.len())[0] == bt[4 * k + j]);
                }
            }
            assert(occurrences(bp, bt, 4 * k + 1) == occurrences(bp, bt, 4 * k + 2));
            assert(occurrences(bp, bt, 4 * k + 2) == occurrences(bp, bt, 4 * k + 3));
            assert(occurrences(bp, bt, 4 * k + 3) == occurrences(bp, bt, 4 * k + 4));
            lemma_key_occurrences(p, t, k + 1);
            assert(4 * k + 4 == 4 * (k + 1));
        }
    }
}

} // verus!
