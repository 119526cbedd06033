//! DIMACS text: one clause per line, as whitespace-separated signed
//! integers; lines that begin with `p`, `c`, `%` or `0` are skipped, and a
//! zero ends a clause.
use vstd::prelude::*;
use vstd::string::StringSliceAdditionalSpecFns;

use crate::literal::Literal;

verus! {

/// A formula as a list of clauses, each a list of nonzero signed integers.
#[derive(Debug)]
pub struct Dimacs {
    pub clauses: Vec<Vec<i64>>,
}

/// Why a text could not be read as a formula.
#[derive(Debug)]
pub struct DimacsError(pub &'static str);

/// The clause of the given integers.
pub open spec fn clause_of(c: Seq<i64>) -> Seq<Literal> {
    c.map_values(|x: i64| Literal(x))
}

impl Dimacs {
    /// The formula, as sequences of literals.
    pub open spec fn formula(&self) -> Seq<Seq<Literal>> {
        self.clauses@.map_values(|c: Vec<i64>| clause_of(c@))
    }

    /// The clauses as sequences of integers.
    pub open spec fn ints(&self) -> Seq<Seq<i64>> {
        self.clauses@.map_values(|c: Vec<i64>| c@)
    }

    /// Every integer names a variable.
    pub open spec fn wf(&self) -> bool {
        forall|j: int, i: int|
            0 <= j < self.clauses@.len() && 0 <= i < self.clauses@[j]@.len() ==> Literal(
                #[trigger] self.clauses@[j]@[i],
            ).wf()
    }
}

/// An ASCII whitespace byte: space, tab, line feed, vertical tab, form feed
/// or carriage return.
pub open spec fn is_space(b: u8) -> bool {
    b == 32 || (9 <= b && b <= 13)
}

/// The length in bytes of the whitespace character that `s` begins with:
/// 1 for ASCII whitespace, 2 or 3 for the UTF-8 encodings of the other
/// Unicode White_Space characters (U+0085, U+00A0, U+1680, U+2000 to
/// U+200A, U+2028, U+2029, U+202F, U+205F, U+3000), and 0 where `s` does not
/// begin with whitespace.
pub open spec fn space_len(s: Seq<u8>) -> nat {
    if s.len() >= 1 && is_space(s[0]) {
        1
    } else if s.len() >= 2 && s[0] == 0xC2 && (s[1] == 0x85 || s[1] == 0xA0) {
        2
    } else if s.len() >= 3 && s[0] == 0xE1 && s[1] == 0x9A && s[2] == 0x80 {
        3
    } else if s.len() >= 3 && s[0] == 0xE2 && s[1] == 0x80 && ((0x80 <= s[2] && s[2] <= 0x8A) || s[2] == 0xA8
        || s[2] == 0xA9 || s[2] == 0xAF) {
        3
    } else if s.len() >= 3 && s[0] == 0xE2 && s[1] == 0x81 && s[2] == 0x9F {
        3
    } else if s.len() >= 3 && s[0] == 0xE3 && s[1] == 0x80 && s[2] == 0x80 {
        3
    } else {
        0
    }
}

/// The text with each whitespace character beyond ASCII written as one ASCII
/// space; ASCII bytes, newlines included, stay as they are.
pub open spec fn ascii_spaces(s: Seq<u8>) -> Seq<u8>
    decreases s.len(),
{
    if s.len() == 0 {
        s
    } else if space_len(s) >= 2 {
        seq![32u8] + ascii_spaces(s.subrange(space_len(s) as int, s.len() as int))
    } else {
        seq![s[0]] + ascii_spaces(s.drop_first())
    }
}

/// The lines of a text: the pieces between its newline bytes.
pub open spec fn lines_of(s: Seq<u8>) -> Seq<Seq<u8>>
    decreases s.len(),
{
    if s.len() == 0 {
        seq![Seq::empty()]
    } else {
        let prev = lines_of(s.drop_last());
        if s.last() == 10 {
            prev.push(Seq::empty())
        } else {
            prev.update(prev.len() - 1, prev.last().push(s.last()))
        }
    }
}

/// The words of a line: its maximal runs of bytes other than whitespace.
pub open spec fn words_of(s: Seq<u8>) -> Seq<Seq<u8>>
    decreases s.len(),
{
    if s.len() == 0 {
        Seq::empty()
    } else {
        let prev = words_of(s.drop_last());
        let b = s.last();
        if is_space(b) {
            prev
        } else if s.len() >= 2 && !is_space(s[s.len() - 2]) {
            prev.update(prev.len() - 1, prev.last().push(b))
        } else {
            prev.push(seq![b])
        }
    }
}

/// The bytes are ASCII decimal digits.
pub open spec fn all_digits(ds: Seq<u8>) -> bool {
    forall|i: int| 0 <= i < ds.len() ==> 48 <= #[trigger] ds[i] <= 57
}

/// The value of a string of decimal digits.
pub open spec fn digits_value(ds: Seq<u8>) -> nat
    decreases ds.len(),
{
    if ds.len() == 0 {
        0
    } else {
        digits_value(ds.drop_last()) * 10 + (ds.last() - 48) as nat
    }
}

/// The 64-bit integer a word writes: an optional `+` or `-` and at least
/// one decimal digit, with a value in range; `None` for any other word.
pub open spec fn int_of(w: Seq<u8>) -> Option<i64> {
    let signed = w.len() > 0 && (w[0] == 45 || w[0] == 43);
    let ds = if signed { w.drop_first() } else { w };
    if ds.len() == 0 || !all_digits(ds) {
        None
    } else if w[0] == 45 {
        if digits_value(ds) <= 0x8000_0000_0000_0000 {
            Some((-digits_value(ds)) as i64)
        } else {
            None
        }
    } else {
        if digits_value(ds) <= 0x7fff_ffff_ffff_ffff {
            Some(digits_value(ds) as i64)
        } else {
            None
        }
    }
}

/// The nonzero integers that the words write, in order, or `None` where a
/// word writes no integer.
pub open spec fn clause_of_words(ws: Seq<Seq<u8>>) -> Option<Seq<i64>>
    decreases ws.len(),
{
    if ws.len() == 0 {
        Some(Seq::empty())
    } else {
        match (clause_of_words(ws.drop_last()), int_of(ws.last())) {
            (Some(c), Some(x)) => Some(if x == 0 { c } else { c.push(x) }),
            _ => None,
        }
    }
}

/// A line with these words holds a clause: it has a word, and its first
/// byte is none of `p`, `c`, `%` and `0`.
pub open spec fn holds_clause(ws: Seq<Seq<u8>>) -> bool {
    ws.len() > 0 && ws[0].len() > 0 && ws[0][0] != 112 && ws[0][0] != 99 && ws[0][0] != 37 && ws[0][0] != 48
}

/// The clauses of the lines that hold one, or `None` where one of them has
/// a word that writes no integer.
pub open spec fn clauses_of_lines(ls: Seq<Seq<u8>>) -> Option<Seq<Seq<i64>>>
    decreases ls.len(),
{
    if ls.len() == 0 {
        Some(Seq::empty())
    } else {
        let prev = clauses_of_lines(ls.drop_last());
        let ws = words_of(ls.last());
        if !holds_clause(ws) {
            prev
        } else {
            match (prev, clause_of_words(ws)) {
                (Some(p), Some(c)) => Some(p.push(c)),
                _ => None,
            }
        }
    }
}

/// The formula that a DIMACS text writes, or `None` for a malformed text.
/// Every Unicode whitespace character separates words.
pub open spec fn dimacs_of(s: Seq<u8>) -> Option<Seq<Seq<i64>>> {
    clauses_of_lines(lines_of(ascii_spaces(s)))
}

/// Once a prefix of the words fails, so do the words.
proof fn lemma_words_fail(ws: Seq<Seq<u8>>, j: int)
    requires
        0 <= j <= ws.len(),
        clause_of_words(ws.subrange(0, j)) is None,
    ensures
        clause_of_words(ws) is None,
    decreases ws.len() - j,
{
    if j < ws.len() {
        assert(ws.subrange(0, j + 1).drop_last() =~= ws.subrange(0, j));
        lemma_words_fail(ws, j + 1);
    } else {
        assert(ws.subrange(0, j) =~= ws);
    }
}

/// Once a prefix of the lines fails, so do the lines.
proof fn lemma_lines_fail(ls: Seq<Seq<u8>>, k: int)
    requires
        0 <= k <= ls.len(),
        clauses_of_lines(ls.subrange(0, k)) is None,
    ensures
        clauses_of_lines(ls) is None,
    decreases ls.len() - k,
{
    if k < ls.len() {
        assert(ls.subrange(0, k + 1).drop_last() =~= ls.subrange(0, k));
        lemma_lines_fail(ls, k + 1);
    } else {
        assert(ls.subrange(0, k) =~= ls);
    }
}

/// A string of digits is worth at least any of its prefixes.
proof fn lemma_digits_prefix(ds: Seq<u8>, k: int)
    requires
        0 <= k <= ds.len(),
        all_digits(ds),
    ensures
        digits_value(ds.subrange(0, k)) <= digits_value(ds),
    decreases ds.len() - k,
{
    if k < ds.len() {
        lemma_digits_prefix(ds, k + 1);
        let p = ds.subrange(0, k + 1);
        assert(p.drop_last() =~= ds.subrange(0, k));
        assert(48 <= ds[k] <= 57);
    } else {
        assert(ds.subrange(0, k) =~= ds);
    }
}

/// The length of the whitespace character at position `i`, as `space_len`
/// gives it.
fn space_len_at(s: &[u8], i: usize) -> (r: usize)
    requires
        i < s@.len(),
    ensures
        r == space_len(s@.subrange(i as int, s@.len() as int)),
{
    let ghost t = s@.subrange(i as int, s@.len() as int);
    let n = s.len();
    let b = s[i];
    proof {
        assert(t[0] == b);
        if i + 1 < n {
            assert(t[1] == s@[i + 1]);
        }
        if i + 2 < n {
            assert(t[2] == s@[i + 2]);
        }
    }
    if b == 32 || (9 <= b && b <= 13) {
        1
    } else if n - i > 1 && b == 0xC2 && (s[i + 1] == 0x85 || s[i + 1] == 0xA0) {
        2
    } else if n - i > 2 && b == 0xE1 && s[i + 1] == 0x9A && s[i + 2] == 0x80 {
        3
    } else if n - i > 2 && b == 0xE2 && s[i + 1] == 0x80 && ((0x80 <= s[i + 2] && s[i + 2] <= 0x8A)
        || s[i + 2] == 0xA8 || s[i + 2] == 0xA9 || s[i + 2] == 0xAF) {
        3
    } else if n - i > 2 && b == 0xE2 && s[i + 1] == 0x81 && s[i + 2] == 0x9F {
        3
    } else if n - i > 2 && b == 0xE3 && s[i + 1] == 0x80 && s[i + 2] == 0x80 {
        3
    } else {
        0
    }
}

/// The text with each whitespace character beyond ASCII written as one ASCII
/// space.
fn ascii_spaces_of(s: &[u8]) -> (r: Vec<u8>)
    ensures
        r@ == ascii_spaces(s@),
{
    let mut out: Vec<u8> = Vec::new();
    let mut i: usize = 0;
    proof {
        assert(s@.subrange(0, s@.len() as int) =~= s@);
        assert(out@ + ascii_spaces(s@) =~= ascii_spaces(s@));
    }
    while i < s.len()
        invariant
            i <= s@.len(),
            out@ + ascii_spaces(s@.subrange(i as int, s@.len() as int)) == ascii_spaces(s@),
        decreases s.len() - i,
    {
        let ghost t = s@.subrange(i as int, s@.len() as int);
        let ghost old_out = out@;
        let k = space_len_at(s, i);
        if k >= 2 {
            out.push(32);
            proof {
                assert(t.subrange(k as int, t.len() as int) =~= s@.subrange(i + k, s@.len() as int));
                assert(ascii_spaces(t) == seq![32u8] + ascii_spaces(t.subrange(k as int, t.len() as int)));
                assert(out@ =~= old_out + seq![32u8]);
                assert(out@ + ascii_spaces(s@.subrange(i + k, s@.len() as int)) =~= old_out + ascii_spaces(t));
            }
            i = i + k;
        } else {
            let b = s[i];
            out.push(b);
            proof {
                assert(t[0] == b);
                assert(t.drop_first() =~= s@.subrange(i + 1, s@.len() as int));
                assert(ascii_spaces(t) == seq![b] + ascii_spaces(t.drop_first()));
                assert(out@ =~= old_out + seq![b]);
                assert(out@ + ascii_spaces(s@.subrange(i + 1, s@.len() as int)) =~= old_out + ascii_spaces(t));
            }
            i = i + 1;
        }
    }
    proof {
        assert(s@.subrange(i as int, s@.len() as int) =~= Seq::<u8>::empty());
        assert(out@ + Seq::<u8>::empty() =~= out@);
    }
    out
}

/// The lines of a text.
fn split_lines(s: &[u8]) -> (r: Vec<Vec<u8>>)
    ensures
        r@.map_values(|v: Vec<u8>| v@) == lines_of(s@),
{
    let mut lines: Vec<Vec<u8>> = Vec::new();
    let mut cur: Vec<u8> = Vec::new();
    let mut i: usize = 0;
    proof {
        assert(lines@.map_values(|v: Vec<u8>| v@).push(cur@) =~= lines_of(s@.subrange(0, 0)));
    }
    while i < s.len()
        invariant
            i <= s@.len(),
            lines@.map_values(|v: Vec<u8>| v@).push(cur@) == lines_of(s@.subrange(0, i as int)),
        decreases s.len() - i,
    {
        let ghost prev = lines_of(s@.subrange(0, i as int));
        let ghost old_lines = lines@;
        let b = s[i];
        proof {
            assert(s@.subrange(0, i + 1).drop_last() =~= s@.subrange(0, i as int));
            assert(s@.subrange(0, i + 1).last() == b);
        }
        if b == 10 {
            lines.push(cur);
            cur = Vec::new();
            proof {
                assert(lines@.map_values(|v: Vec<u8>| v@) =~= old_lines.map_values(|v: Vec<u8>| v@).push(prev.last()));
                assert(lines@.map_values(|v: Vec<u8>| v@).push(cur@) =~= prev.push(Seq::empty()));
            }
        } else {
            let ghost old_cur = cur@;
            cur.push(b);
            proof {
                assert(lines@.map_values(|v: Vec<u8>| v@).push(cur@) =~= prev.update(prev.len() - 1, prev.last().push(b)));
            }
        }
        i = i + 1;
    }
    let ghost before = lines@;
    lines.push(cur);
    proof {
        assert(s@.subrange(0, s@.len() as int) =~= s@);
        assert(lines@.map_values(|v: Vec<u8>| v@) =~= before.map_values(|v: Vec<u8>| v@).push(cur@));
    }
    lines
}

/// The words of a line.
fn split_words(s: &Vec<u8>) -> (r: Vec<Vec<u8>>)
    ensures
        r@.map_values(|v: Vec<u8>| v@) == words_of(s@),
{
    let mut words: Vec<Vec<u8>> = Vec::new();
    let mut cur: Vec<u8> = Vec::new();
    let mut in_word = false;
    let mut i: usize = 0;
    proof {
        assert(words@.map_values(|v: Vec<u8>| v@) =~= words_of(s@.subrange(0, 0)));
    }
    while i < s.len()
        invariant
            i <= s@.len(),
            in_word == (i > 0 && !is_space(s@[i - 1])),
            in_word ==> words@.map_values(|v: Vec<u8>| v@).push(cur@) == words_of(s@.subrange(0, i as int)),
            !in_word ==> words@.map_values(|v: Vec<u8>| v@) == words_of(s@.subrange(0, i as int)),
        decreases s.len() - i,
    {
        let ghost sub = s@.subrange(0, i + 1);
        let ghost prev = words_of(s@.subrange(0, i as int));
        let ghost old_words = words@;
        let b = s[i];
        proof {
            assert(sub.drop_last() =~= s@.subrange(0, i as int));
            assert(sub.last() == b);
            if i > 0 {
                assert(sub[sub.len() - 2] == s@[i - 1]);
            }
        }
        if b == 32 || (9 <= b && b <= 13) {
            if in_word {
                words.push(cur);
                cur = Vec::new();
                proof {
                    assert(words@.map_values(|v: Vec<u8>| v@) =~= old_words.map_values(|v: Vec<u8>| v@).push(prev.last()));
                    assert(words@.map_values(|v: Vec<u8>| v@) =~= prev);
                }
            }
            in_word = false;
        } else {
            if in_word {
                cur.push(b);
                proof {
                    assert(words@.map_values(|v: Vec<u8>| v@).push(cur@) =~= prev.update(prev.len() - 1, prev.last().push(b)));
                }
            } else {
                cur = Vec::new();
                cur.push(b);
                proof {
                    assert(cur@ =~= seq![b]);
                }
            }
            in_word = true;
        }
        i = i + 1;
    }
    if in_word {
        words.push(cur);
    }
    proof {
        assert(s@.subrange(0, s@.len() as int) =~= s@);
        assert(words@.map_values(|v: Vec<u8>| v@) =~= words_of(s@));
    }
    words
}

/// The integer a word writes, if it writes one.
fn int_of_word(w: &Vec<u8>) -> (r: Option<i64>)
    ensures
        r == int_of(w@),
{
    let n = w.len();
    if n == 0 {
        return None;
    }
    let neg = w[0] == 45;
    let start: usize = if w[0] == 45 || w[0] == 43 { 1 } else { 0 };
    let ghost ds = if w[0] == 45 || w[0] == 43 { w@.drop_first() } else { w@ };
    proof {
        assert(ds =~= w@.subrange(start as int, n as int));
    }
    if start == n {
        return None;
    }
    let limit: u64 = if neg { 0x8000_0000_0000_0000 } else { 0x7fff_ffff_ffff_ffff };
    let mut acc: u64 = 0;
    let mut i = start;
    proof {
        assert(ds.subrange(0, 0) =~= Seq::<u8>::empty());
    }
    while i < n
        invariant
            start <= i <= n,
            n == w@.len(),
            n > 0,
            neg == (w@[0] == 45),
            start == (if w@[0] == 45 || w@[0] == 43 { 1usize } else { 0usize }),
            limit == (if neg { 0x8000_0000_0000_0000u64 } else { 0x7fff_ffff_ffff_ffffu64 }),
            ds == w@.subrange(start as int, n as int),
            ds == (if w@[0] == 45 || w@[0] == 43 { w@.drop_first() } else { w@ }),
            acc as nat == digits_value(ds.subrange(0, i - start)),
            acc <= limit,
            all_digits(ds.subrange(0, i - start)),
        decreases n - i,
    {
        let b = w[i];
        let ghost k = i - start;
        proof {
            assert(ds[k] == b);
            assert(ds.subrange(0, k + 1).drop_last() =~= ds.subrange(0, k));
            assert(ds.subrange(0, k + 1).last() == b);
        }
        if b < 48 || b > 57 {
            proof {
                assert(!(48 <= ds[k] <= 57));
                assert(!all_digits(ds));
            }
            return None;
        }
        let d = (b - 48) as u64;
        assert(d <= 9);
        if acc > (limit - d) / 10 {
            proof {
                assert(acc * 10 + d > limit) by (nonlinear_arith)
                    requires acc > (limit - d) / 10, d <= limit;
                assert(digits_value(ds.subrange(0, k + 1)) == acc * 10 + d);
                if all_digits(ds) {
                    lemma_digits_prefix(ds, k + 1);
                    assert(digits_value(ds) > limit);
                    assert(ds.len() > 0);
                    if neg {
                        assert(w@[0] == 45);
                    } else {
                        assert(w@[0] != 45);
                    }
                }
            }
            return None;
        }
        proof {
            assert(acc * 10 + d <= limit) by (nonlinear_arith)
                requires acc <= (limit - d) / 10, d <= limit;
            assert(all_digits(ds.subrange(0, k + 1))) by {
                assert forall|q: int| 0 <= q < k + 1 implies 48 <= #[trigger] ds.subrange(0, k + 1)[q] <= 57 by {
                    if q < k {
                        assert(ds.subrange(0, k + 1)[q] == ds.subrange(0, k)[q]);
                    }
                }
            }
        }
        acc = acc * 10 + d;
        i = i + 1;
    }
    proof {
        assert(ds.subrange(0, n - start) =~= ds);
    }
    if neg {
        if acc == 0x8000_0000_0000_0000 {
            Some(i64::MIN)
        } else {
            Some(-(acc as i64))
        }
    } else {
        Some(acc as i64)
    }
}

/// Reads a DIMACS text: `Ok` with the clause of each line that holds one,
/// exactly when every word of those lines writes a 64-bit integer.
pub fn parse(dimacs: &str) -> (r: Result<Dimacs, DimacsError>)
    ensures
        r is Ok ==> dimacs_of(dimacs.spec_bytes()) == Some(r->Ok_0.ints()),
        r is Err ==> dimacs_of(dimacs.spec_bytes()) is None,
{
    let bytes = dimacs.as_bytes();
    let spaced = ascii_spaces_of(bytes);
    let lines = split_lines(spaced.as_slice());
    let ghost ls = lines@.map_values(|v: Vec<u8>| v@);
    let mut clauses: Vec<Vec<i64>> = Vec::new();
    let mut k: usize = 0;
    proof {
        assert(ls.subrange(0, 0) =~= Seq::<Seq<u8>>::empty());
        assert(clauses@.map_values(|c: Vec<i64>| c@) =~= Seq::<Seq<i64>>::empty());
    }
    while k < lines.len()
        invariant
            k <= lines@.len(),
            ls == lines@.map_values(|v: Vec<u8>| v@),
            ls == lines_of(ascii_spaces(bytes@)),
            bytes@ == dimacs.spec_bytes(),
            clauses_of_lines(ls.subrange(0, k as int)) == Some(clauses@.map_values(|c: Vec<i64>| c@)),
        decreases lines.len() - k,
    {
        let words = split_words(&lines[k]);
        let ghost ws = words@.map_values(|v: Vec<u8>| v@);
        proof {
            assert(ls.subrange(0, k + 1).drop_last() =~= ls.subrange(0, k as int));
            assert(ls.subrange(0, k + 1).last() == lines@[k as int]@);
            assert(ws == words_of(ls.subrange(0, k + 1).last()));
        }
        let holds = words.len() > 0 && words[0].len() > 0 && words[0][0] != 112 && words[0][0] != 99
            && words[0][0] != 37 && words[0][0] != 48;
        proof {
            if words@.len() > 0 {
                assert(ws[0] == words@[0]@);
            }
            assert(holds == holds_clause(ws));
        }
        if holds {
            let mut clause: Vec<i64> = Vec::new();
            let mut j: usize = 0;
            proof {
                assert(ws.subrange(0, 0) =~= Seq::<Seq<u8>>::empty());
                assert(clause@ =~= Seq::<i64>::empty());
            }
            while j < words.len()
                invariant
                    j <= words@.len(),
                    ws == words@.map_values(|v: Vec<u8>| v@),
                    clause_of_words(ws.subrange(0, j as int)) == Some(clause@),
                    k < lines@.len(),
                    ls == lines@.map_values(|v: Vec<u8>| v@),
                    ls == lines_of(ascii_spaces(bytes@)),
                    bytes@ == dimacs.spec_bytes(),
                    ws == words_of(ls.subrange(0, k + 1).last()),
                    ls.subrange(0, k + 1).drop_last() == ls.subrange(0, k as int),
                    holds_clause(ws),
                    clauses_of_lines(ls.subrange(0, k as int)) == Some(clauses@.map_values(|c: Vec<i64>| c@)),
                decreases words.len() - j,
            {
                let x = int_of_word(&words[j]);
                proof {
                    assert(ws.subrange(0, j + 1).drop_last() =~= ws.subrange(0, j as int));
                    assert(ws.subrange(0, j + 1).last() == words@[j as int]@);
                }
                match x {
                    None => {
                        proof {
                            lemma_words_fail(ws, j + 1);
                            assert(clauses_of_lines(ls.subrange(0, k + 1)) is None);
                            lemma_lines_fail(ls, k + 1);
                        }
                        return Err(DimacsError("Could not parse"));
                    },
                    Some(v) => {
                        if v != 0 {
                            clause.push(v);
                        }
                    },
                }
                j = j + 1;
            }
            proof {
                assert(ws.subrange(0, words@.len() as int) =~= ws);
            }
            let ghost before = clauses@;
            clauses.push(clause);
            proof {
                assert(clauses@.map_values(|c: Vec<i64>| c@) =~= before.map_values(|c: Vec<i64>| c@).push(clause@));
            }
        }
        k = k + 1;
    }
    proof {
        assert(ls.subrange(0, lines@.len() as int) =~= ls);
    }
    let d = Dimacs { clauses };
    proof {
        assert(d.ints() =~= d.clauses@.map_values(|c: Vec<i64>| c@));
    }
    Ok(d)
}

} // verus!
