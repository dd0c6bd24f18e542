use vstd::prelude::*;
use vstd::string::*;
use vstd::arithmetic::div_mod::*;
use crate::graph_circ::{
    CircGraph,
    CircGraphErr,
    splits_indexable,
    has_cycle,
    split_arcs,
    is_source_walk,
    is_simple_canonical_cycle,
    arcs_of,
    longest_source_walk_len,
};
use crate::cycles::is_longest_simple_cycle;
use crate::graph_code::{CodeGraph, is_ambiguous, walks_decide_code, rows_of};

verus! {

/// Failures when building a code.
#[derive(Debug, PartialEq, Eq, Structural)]
pub enum CircCodeErr {
    EmptyCode,
    EmptyWord,
}

impl CircCodeErr {
    /// A short message that names the failure.
    pub fn to_string(&self) -> (r: String)
        ensures
            *self == CircCodeErr::EmptyCode ==> r@ == "Empty Code"@,
            *self == CircCodeErr::EmptyWord ==> r@ == "Empty Word"@,
    {
        match self {
            CircCodeErr::EmptyCode => String::from_str("Empty Code"),
            CircCodeErr::EmptyWord => String::from_str("Empty Word"),
        }
    }
}

// ---------------------------------------------------------------------------
// Mathematical model of a code: a sequence of words, each a sequence of symbols.

/// The symbol sequences of a list of strings.
pub open spec fn word_views(ws: Seq<String>) -> Seq<Seq<char>> {
    ws.map_values(|w: String| w@)
}

/// The words of `s` with every later repetition removed; first occurrences keep their order.
pub open spec fn dedup_words(s: Seq<Seq<char>>) -> Seq<Seq<char>>
    decreases s.len(),
{
    if s.len() == 0 {
        s
    } else {
        let d = dedup_words(s.drop_last());
        if d.contains(s.last()) {
            d
        } else {
            d.push(s.last())
        }
    }
}

pub open spec fn strictly_sorted_chars(s: Seq<char>) -> bool {
    forall|i: int, j: int| 0 <= i < j < s.len() ==> s[i] < s[j]
}

pub open spec fn strictly_sorted_lengths(s: Seq<usize>) -> bool {
    forall|i: int, j: int| 0 <= i < j < s.len() ==> s[i] < s[j]
}

/// Some word of `ws` holds the symbol `c`.
pub open spec fn uses_symbol(ws: Seq<Seq<char>>, c: char) -> bool {
    exists|i: int| 0 <= i < ws.len() && #[trigger] ws[i].contains(c)
}

/// Some word of `ws` has length `n`.
pub open spec fn uses_length(ws: Seq<Seq<char>>, n: int) -> bool {
    exists|i: int| 0 <= i < ws.len() && #[trigger] ws[i].len() == n
}

/// `a` lists, in increasing order and once each, the symbols that occur in `ws`.
pub open spec fn is_alphabet_of(a: Seq<char>, ws: Seq<Seq<char>>) -> bool {
    &&& strictly_sorted_chars(a)
    &&& forall|c: char| a.contains(c) <==> uses_symbol(ws, c)
}

/// `l` lists, in increasing order and once each, the lengths of the words of `ws`.
pub open spec fn is_lengths_of(l: Seq<usize>, ws: Seq<Seq<char>>) -> bool {
    &&& strictly_sorted_lengths(l)
    &&& forall|n: usize| l.contains(n) <==> uses_length(ws, n as int)
}

/// The words of `s` cut into consecutive pieces of length `t`; a shorter rest is dropped.
pub open spec fn tuples_of(s: Seq<char>, t: nat) -> Seq<Seq<char>>
    recommends
        t > 0,
{
    Seq::new(s.len() / t, |i: int| s.subrange(i * t, (i + 1) * t))
}

/// `w` rotated left by `sh` positions: the suffix from `sh mod |w|` followed by the prefix
/// before it.
pub open spec fn rotate(w: Seq<char>, sh: int) -> Seq<char> {
    if w.len() == 0 {
        w
    } else {
        let k = sh % (w.len() as int);
        w.subrange(k, w.len() as int) + w.subrange(0, k)
    }
}

/// Every word of `ws` rotated by `sh`.
pub open spec fn rotate_all(ws: Seq<Seq<char>>, sh: int) -> Seq<Seq<char>> {
    ws.map_values(|w: Seq<char>| rotate(w, sh))
}

/// A code: identifier, duplicate-free words, the lengths they use and their alphabet.
#[derive(Debug, Clone)]
pub struct CircCode {
    /// A name for the code.
    pub id: String,
    /// The words, in order of first occurrence.
    pub code: Vec<String>,
    /// The word lengths in use, increasing.
    pub tuple_length: Vec<usize>,
    /// The symbols in use, increasing.
    pub alphabet: Vec<char>,
}

impl CircCode {
    /// The words as symbol sequences.
    pub open spec fn words(&self) -> Seq<Seq<char>> {
        word_views(self.code@)
    }

    /// A well-formed code: some words, none empty, none twice, with its lengths and alphabet.
    pub open spec fn wf(&self) -> bool {
        &&& self.words().len() > 0
        &&& forall|i: int| 0 <= i < self.words().len() ==> #[trigger] self.words()[i].len() > 0
        &&& self.words().no_duplicates()
        &&& is_lengths_of(self.tuple_length@, self.words())
        &&& is_alphabet_of(self.alphabet@, self.words())
    }
}

// ---------------------------------------------------------------------------
// Sorted sets held in vectors.

/// Inserts `c` at its place in the strictly sorted `v`, unless it is already there.
fn insert_sorted_char(v: &mut Vec<char>, c: char)
    requires
        strictly_sorted_chars(old(v)@),
    ensures
        strictly_sorted_chars(final(v)@),
        forall|x: char| final(v)@.contains(x) <==> (old(v)@.contains(x) || x == c),
{
    let mut i: usize = 0;
    while i < v.len() && v[i] < c
        invariant
            0 <= i <= v.len(),
            forall|k: int| 0 <= k < i ==> v@[k] < c,
        decreases v.len() - i,
    {
        i += 1;
    }
    if i < v.len() && v[i] == c {
        assert(v@[i as int] == c);
        assert(forall|x: char| v@.contains(x) <==> (old(v)@.contains(x) || x == c));
        return;
    }
    let ghost before = v@;
    v.insert(i, c);
    assert forall|x: char| v@.contains(x) <==> before.contains(x) || x == c by {
        if v@.contains(x) {
            let k = choose|k: int| 0 <= k < v@.len() && v@[k] == x;
            if k < i {
                assert(before[k] == x);
            } else if k > i {
                assert(before[k - 1] == x);
            }
        }
        if before.contains(x) {
            let k = choose|k: int| 0 <= k < before.len() && before[k] == x;
            if k < i {
                assert(v@[k] == x);
            } else {
                assert(v@[k + 1] == x);
            }
        }
        if x == c {
            assert(v@[i as int] == x);
        }
    }
    assert(forall|x: char| v@.contains(x) <==> (old(v)@.contains(x) || x == c));
}

/// Inserts `n` at its place in the strictly sorted `v`, unless it is already there.
fn insert_sorted_length(v: &mut Vec<usize>, n: usize)
    requires
        strictly_sorted_lengths(old(v)@),
    ensures
        strictly_sorted_lengths(final(v)@),
        forall|x: usize| final(v)@.contains(x) <==> (old(v)@.contains(x) || x == n),
{
    let mut i: usize = 0;
    while i < v.len() && v[i] < n
        invariant
            0 <= i <= v.len(),
            forall|k: int| 0 <= k < i ==> v@[k] < n,
        decreases v.len() - i,
    {
        i += 1;
    }
    if i < v.len() && v[i] == n {
        assert(v@[i as int] == n);
        assert(forall|x: usize| v@.contains(x) <==> (old(v)@.contains(x) || x == n));
        return;
    }
    let ghost before = v@;
    v.insert(i, n);
    assert forall|x: usize| v@.contains(x) <==> before.contains(x) || x == n by {
        if v@.contains(x) {
            let k = choose|k: int| 0 <= k < v@.len() && v@[k] == x;
            if k < i {
                assert(before[k] == x);
            } else if k > i {
                assert(before[k - 1] == x);
            }
        }
        if before.contains(x) {
            let k = choose|k: int| 0 <= k < before.len() && before[k] == x;
            if k < i {
                assert(v@[k] == x);
            } else {
                assert(v@[k + 1] == x);
            }
        }
        if x == n {
            assert(v@[i as int] == x);
        }
    }
    assert(forall|x: usize| v@.contains(x) <==> (old(v)@.contains(x) || x == n));
}

/// Whether `v` holds a string with the symbols of `w`.
fn contains_word(v: &Vec<String>, w: &String) -> (r: bool)
    ensures
        r == word_views(v@).contains(w@),
{
    let mut i: usize = 0;
    while i < v.len()
        invariant
            0 <= i <= v.len(),
            forall|k: int| 0 <= k < i ==> v@[k]@ != w@,
        decreases v.len() - i,
    {
        if v[i] == *w {
            assert(word_views(v@)[i as int] == w@);
            return true;
        }
        i += 1;
    }
    assert(!word_views(v@).contains(w@)) by {
        if word_views(v@).contains(w@) {
            let k = choose|k: int| 0 <= k < word_views(v@).len() && word_views(v@)[k] == w@;
            assert(v@[k]@ == w@);
        }
    }
    false
}

/// A copy of a list of strings.
fn copy_strings(v: &Vec<String>) -> (r: Vec<String>)
    ensures
        word_views(r@) == word_views(v@),
{
    let mut r: Vec<String> = Vec::new();
    let mut i: usize = 0;
    while i < v.len()
        invariant
            0 <= i <= v.len(),
            r.len() == i,
            word_views(r@) == word_views(v@).subrange(0, i as int),
        decreases v.len() - i,
    {
        let s: String = v[i].clone();
        let ghost old_r = r@;
        r.push(s);
        assert(r@.len() == i + 1);
        assert(word_views(r@).len() == i + 1);
        assert(r@[i as int]@ == v@[i as int]@);
        assert forall|k: int| 0 <= k < i + 1 implies #[trigger] word_views(r@)[k] == word_views(v@)[k] by {
            if k < i {
                assert(word_views(old_r)[k] == word_views(v@).subrange(0, i as int)[k]);
            }
        }
        assert(word_views(r@) =~= word_views(v@).subrange(0, i + 1));
        i += 1;
    }
    assert(word_views(v@).subrange(0, v.len() as int) =~= word_views(v@));
    r
}

/// The strictly sorted symbols of `ws`.
fn collect_alphabet(ws: &Vec<String>) -> (a: Vec<char>)
    ensures
        is_alphabet_of(a@, word_views(ws@)),
{
    let ghost wv = word_views(ws@);
    let mut a: Vec<char> = Vec::new();
    let mut i: usize = 0;
    while i < ws.len()
        invariant
            0 <= i <= ws.len(),
            wv == word_views(ws@),
            strictly_sorted_chars(a@),
            forall|c: char| a@.contains(c) <==> uses_symbol(wv.subrange(0, i as int), c),
        decreases ws.len() - i,
    {
        let w = ws[i].as_str();
        let n = w.unicode_len();
        let mut j: usize = 0;
        while j < n
            invariant
                0 <= i < ws.len(),
                wv == word_views(ws@),
                w@ == wv[i as int],
                n == w@.len(),
                0 <= j <= n,
                strictly_sorted_chars(a@),
                forall|c: char|
                    a@.contains(c) <==> (uses_symbol(wv.subrange(0, i as int), c)
                        || exists|k: int| 0 <= k < j && w@[k] == c),
            decreases n - j,
        {
            let c = w.get_char(j);
            insert_sorted_char(&mut a, c);
            assert forall|x: char|
                a@.contains(x) <==> (uses_symbol(wv.subrange(0, i as int), x)
                    || exists|k: int| 0 <= k < j + 1 && w@[k] == x) by {
                if x == c {
                    assert(w@[j as int] == x);
                }
            }
            j += 1;
        }
        assert forall|x: char| w@.contains(x) <==> exists|k: int| 0 <= k < n && w@[k] == x by {
            if w@.contains(x) {
                let k = choose|k: int| 0 <= k < w@.len() && w@[k] == x;
                assert(0 <= k < n && w@[k] == x);
            }
        }
        assert forall|x: char|
            a@.contains(x) <==> uses_symbol(wv.subrange(0, i + 1), x) by {
            let pre = wv.subrange(0, i as int);
            let nxt = wv.subrange(0, i + 1);
            if uses_symbol(nxt, x) {
                let k = choose|k: int| 0 <= k < nxt.len() && #[trigger] nxt[k].contains(x);
                if k < i {
                    assert(pre[k] == nxt[k]);
                }
            }
            if uses_symbol(pre, x) {
                let k = choose|k: int| 0 <= k < pre.len() && #[trigger] pre[k].contains(x);
                assert(pre[k] == nxt[k]);
            }
            if w@.contains(x) {
                assert(nxt[i as int] == w@);
            }
        }
        i += 1;
    }
    assert(wv.subrange(0, ws.len() as int) =~= wv);
    a
}


// ---------------------------------------------------------------------------
// Lemmas on the model.

proof fn lemma_dedup_words(s: Seq<Seq<char>>)
    ensures
        dedup_words(s).no_duplicates(),
        forall|x: Seq<char>| dedup_words(s).contains(x) <==> s.contains(x),
        s.len() > 0 ==> dedup_words(s).len() > 0,
    decreases s.len(),
{
    if s.len() > 0 {
        let p = s.drop_last();
        lemma_dedup_words(p);
        assert forall|x: Seq<char>| dedup_words(s).contains(x) <==> s.contains(x) by {
            if s.contains(x) && x != s.last() {
                let k = choose|k: int| 0 <= k < s.len() && s[k] == x;
                assert(p[k] == x);
            }
            if p.contains(x) {
                let k = choose|k: int| 0 <= k < p.len() && p[k] == x;
                assert(s[k] == x);
            }
            if x == s.last() {
                assert(s[s.len() - 1] == x);
            }
            let d = dedup_words(p);
            if !d.contains(s.last()) {
                if d.push(s.last()).contains(x) && x != s.last() {
                    let k = choose|k: int| 0 <= k < d.len() + 1 && d.push(s.last())[k] == x;
                    assert(d[k] == x);
                }
                if d.contains(x) {
                    let k = choose|k: int| 0 <= k < d.len() && d[k] == x;
                    assert(d.push(s.last())[k] == x);
                }
                assert(d.push(s.last())[d.len() as int] == s.last());
            }
        }
        if s.len() > 0 {
            assert(s.contains(s.last())) by {
                assert(s[s.len() - 1] == s.last());
            }
        }
    }
}

// ---------------------------------------------------------------------------
// Construction.

impl Default for CircCode {
    /// The one-word code `{A}`, named "no id".
    fn default() -> (r: Self)
        ensures
            r.wf(),
            r.words() == seq![seq!['A']],
            r.id@ == "no id"@,
    {
        let mut code: Vec<String> = Vec::new();
        code.push(String::from_str("A"));
        let mut tuple_length: Vec<usize> = Vec::new();
        tuple_length.push(1);
        let mut alphabet: Vec<char> = Vec::new();
        alphabet.push('A');
        proof {
            reveal_strlit("A");
        }
        let r = CircCode { id: String::from_str("no id"), code, tuple_length, alphabet };
        assert(r.code@[0]@ =~= seq!['A']);
        assert(r.words() =~= seq![seq!['A']]);
        assert(uses_length(r.words(), 1)) by {
            assert(r.words()[0].len() == 1);
        }
        assert(uses_symbol(r.words(), 'A')) by {
            assert(r.words()[0][0] == 'A');
            assert(r.words()[0].contains('A'));
        }
        assert forall|c: char| uses_symbol(r.words(), c) implies c == 'A' by {
            let i = choose|i: int| 0 <= i < r.words().len() && #[trigger] r.words()[i].contains(c);
            let k = choose|k: int| 0 <= k < r.words()[i].len() && r.words()[i][k] == c;
        }
        assert(r.alphabet@.contains('A')) by {
            assert(r.alphabet@[0] == 'A');
        }
        assert(r.tuple_length@.contains(1)) by {
            assert(r.tuple_length@[0] == 1);
        }
        r
    }
}

impl CircCode {
    /// Builds a code from a list of words.
    ///
    /// Fails with `EmptyCode` on an empty list and with `EmptyWord` where a word is empty.
    /// Otherwise the words keep their first occurrences in order, and the lengths and the
    /// alphabet are collected.
    pub fn new_from_vec(code: Vec<String>) -> (r: Result<Self, CircCodeErr>)
        ensures
            code@.len() == 0 ==> r == Err::<Self, CircCodeErr>(CircCodeErr::EmptyCode),
            code@.len() > 0 && (exists|i: int| 0 <= i < code@.len() && #[trigger] code@[i]@.len() == 0)
                ==> r == Err::<Self, CircCodeErr>(CircCodeErr::EmptyWord),
            code@.len() > 0 && (forall|i: int| 0 <= i < code@.len() ==> #[trigger] code@[i]@.len() > 0)
                ==> r is Ok,
            r is Ok ==> ({
                let c = r->Ok_0;
                &&& c.wf()
                &&& c.words() == dedup_words(word_views(code@))
                &&& c.id@ == "unknown"@
            }),
    {
        if code.len() == 0 {
            return Err(CircCodeErr::EmptyCode);
        }
        let ghost wv = word_views(code@);
        let mut out: Vec<String> = Vec::new();
        let mut i: usize = 0;
        while i < code.len()
            invariant
                0 <= i <= code.len(),
                wv == word_views(code@),
                forall|k: int| 0 <= k < i ==> #[trigger] code@[k]@.len() > 0,
                word_views(out@) == dedup_words(wv.subrange(0, i as int)),
            decreases code.len() - i,
        {
            if code[i].as_str().unicode_len() == 0 {
                return Err(CircCodeErr::EmptyWord);
            }
            assert(wv.subrange(0, i + 1).drop_last() =~= wv.subrange(0, i as int));
            assert(wv.subrange(0, i + 1).last() == code@[i as int]@);
            if !contains_word(&out, &code[i]) {
                let ghost old_out = out@;
                let w = code[i].clone();
                out.push(w);
                assert(word_views(out@) =~= word_views(old_out).push(code@[i as int]@));
            }
            i += 1;
        }
        assert(wv.subrange(0, code.len() as int) =~= wv);
        proof {
            lemma_dedup_words(wv);
        }
        let mut tuple_length: Vec<usize> = Vec::new();
        let mut j: usize = 0;
        while j < out.len()
            invariant
                0 <= j <= out.len(),
                strictly_sorted_lengths(tuple_length@),
                forall|n: usize|
                    tuple_length@.contains(n) <==> uses_length(word_views(out@).subrange(0, j as int), n as int),
            decreases out.len() - j,
        {
            let n = out[j].as_str().unicode_len();
            insert_sorted_length(&mut tuple_length, n);
            proof {
                assert(word_views(out@)[j as int] == out@[j as int]@);
                lemma_uses_length_step(word_views(out@), j as int);
            }
            j += 1;
        }
        assert(word_views(out@).subrange(0, out.len() as int) =~= word_views(out@));
        let alphabet = collect_alphabet(&out);
        let r = CircCode { id: String::from_str("unknown"), code: out, tuple_length, alphabet };
        assert forall|k: int| 0 <= k < r.words().len() implies #[trigger] r.words()[k].len() > 0 by {
            assert(wv.contains(r.words()[k]));
            let m = choose|m: int| 0 <= m < wv.len() && wv[m] == r.words()[k];
            assert(code@[m]@.len() > 0);
        }
        Ok(r)
    }

    /// Builds a code from a sequence cut into consecutive tuples of length `tuple_length`.
    ///
    /// Fails with `EmptyCode` on an empty sequence or one shorter than a tuple. A shorter
    /// rest at the end is dropped and repeated tuples are kept once.
    pub fn new_from_seq(sequence: String, tuple_length: usize) -> (r: Result<Self, CircCodeErr>)
        requires
            tuple_length > 0,
        ensures
            (sequence@.len() == 0 || tuple_length > sequence@.len()) <==> r == Err::<Self, CircCodeErr>(
                CircCodeErr::EmptyCode,
            ),
            !(sequence@.len() == 0 || tuple_length > sequence@.len()) ==> r is Ok,
            r is Ok ==> ({
                let c = r->Ok_0;
                &&& c.wf()
                &&& c.words() == dedup_words(tuples_of(sequence@, tuple_length as nat))
                &&& c.tuple_length@ == seq![tuple_length]
                &&& c.id@ == "unknown"@
            }),
    {
        let s = sequence.as_str();
        let n = s.unicode_len();
        if n == 0 {
            return Err(CircCodeErr::EmptyCode);
        }
        if tuple_length > n {
            return Err(CircCodeErr::EmptyCode);
        }
        let t = tuple_length;
        let ghost tu = tuples_of(s@, t as nat);
        let mut out: Vec<String> = Vec::new();
        let mut pos: usize = 0;
        let mut i: usize = 0;
        while t <= n - pos
            invariant
                t == tuple_length,
                t > 0,
                n == s@.len(),
                s@ == sequence@,
                tu == tuples_of(s@, t as nat),
                pos == i * t,
                pos <= n,
                i <= tu.len(),
                word_views(out@) == dedup_words(tu.subrange(0, i as int)),
            decreases n - pos,
        {
            proof {
                assert((i + 1) * t == i * t + t) by (nonlinear_arith);
                lemma_div_multiples_vanish((i + 1) as int, t as int);
                lemma_div_is_ordered(((i + 1) * t) as int, n as int, t as int);
                assert(t * (i + 1) == (i + 1) * t) by (nonlinear_arith);
            }
            let piece = s.substring_char(pos, pos + t);
            let w = String::from_str(piece);
            assert(tu[i as int] == w@);
            assert(tu.subrange(0, i + 1).drop_last() =~= tu.subrange(0, i as int));
            assert(tu.subrange(0, i + 1).last() == w@);
            if !contains_word(&out, &w) {
                let ghost old_out = out@;
                out.push(w);
                assert(word_views(out@) =~= word_views(old_out).push(tu[i as int]));
            }
            pos = pos + t;
            i = i + 1;
        }
        proof {
            lemma_fundamental_div_mod_converse(n as int, t as int, i as int, (n - pos) as int);
            assert(i * t == t * i) by (nonlinear_arith);
        }
        assert(tu.subrange(0, tu.len() as int) =~= tu);
        proof {
            lemma_dedup_words(tu);
            lemma_div_multiples_vanish(1, t as int);
            lemma_div_is_ordered(t as int, n as int, t as int);
        }
        let mut lengths: Vec<usize> = Vec::new();
        lengths.push(t);
        let alphabet = collect_alphabet(&out);
        let r = CircCode { id: String::from_str("unknown"), code: out, tuple_length: lengths, alphabet };
        proof {
            lemma_tuples_len(s@, t as nat);
        }
        assert forall|k: int| 0 <= k < r.words().len() implies #[trigger] r.words()[k].len() == t by {
            assert(tu.contains(r.words()[k]));
            let m = choose|m: int| 0 <= m < tu.len() && tu[m] == r.words()[k];
        }
        assert(r.words()[0].len() == t);
        assert forall|m: usize| r.tuple_length@.contains(m) <==> uses_length(r.words(), m as int) by {
            if r.tuple_length@.contains(m) {
                assert(r.tuple_length@[0] == t);
                assert(r.words()[0].len() == m);
            }
            if uses_length(r.words(), m as int) {
                let k = choose|k: int| 0 <= k < r.words().len() && #[trigger] r.words()[k].len() == m;
                assert(r.tuple_length@[0] == m);
            }
        }
        Ok(r)
    }

    /// A copy of the words.
    pub fn get_code(&self) -> (r: Vec<String>)
        ensures
            word_views(r@) == self.words(),
    {
        copy_strings(&self.code)
    }

    /// The word lengths in use, increasing.
    pub fn get_tuple_length(&self) -> (r: Vec<usize>)
        ensures
            r@ == self.tuple_length@,
    {
        self.tuple_length.clone()
    }

    /// The symbols in use, increasing.
    pub fn get_alphabet(&self) -> (r: Vec<char>)
        ensures
            r@ == self.alphabet@,
    {
        self.alphabet.clone()
    }

    /// Rotates every word by `sh` positions, each by `sh` modulo its own length.
    pub fn shift(&mut self, sh: i32)
        requires
            old(self).wf(),
        ensures
            final(self).wf(),
            final(self).words() == rotate_all(old(self).words(), sh as int),
            final(self).tuple_length@ == old(self).tuple_length@,
            final(self).alphabet@ == old(self).alphabet@,
            final(self).id == old(self).id,
    {
        let ghost ws = self.words();
        let mut out: Vec<String> = Vec::new();
        let mut i: usize = 0;
        while i < self.code.len()
            invariant
                ws == self.words(),
                self.wf(),
                0 <= i <= self.code.len(),
                out.len() == i,
                word_views(out@) == rotate_all(ws, sh as int).subrange(0, i as int),
            decreases self.code.len() - i,
        {
            assert(ws[i as int] == self.code@[i as int]@);
            let w = rotate_word(&self.code[i], sh);
            let ghost old_out = out@;
            out.push(w);
            assert(word_views(out@) =~= word_views(old_out).push(rotate(ws[i as int], sh as int)));
            assert(rotate_all(ws, sh as int).subrange(0, i + 1) =~= rotate_all(ws, sh as int).subrange(0, i as int).push(rotate(ws[i as int], sh as int)));
            i += 1;
        }
        assert(rotate_all(ws, sh as int).subrange(0, ws.len() as int) =~= rotate_all(ws, sh as int));
        self.code = out;
        proof {
            lemma_rotate_all_keeps_wf(ws, sh as int, self.tuple_length@, self.alphabet@);
        }
    }
}

impl CircCode {
    /// The code of the words, or the default code where they are empty or hold an empty word.
    pub fn from_words_or_default(code: Vec<String>) -> (r: CircCode)
        ensures
            r.wf(),
            code@.len() > 0 && (forall|i: int| 0 <= i < code@.len() ==> #[trigger] code@[i]@.len() > 0) ==> r.words()
                == dedup_words(word_views(code@)),
            !(code@.len() > 0 && (forall|i: int| 0 <= i < code@.len() ==> #[trigger] code@[i]@.len() > 0)) ==> r.words()
                == seq![seq!['A']],
    {
        match CircCode::new_from_vec(code) {
            Ok(c) => c,
            Err(_) => CircCode::default(),
        }
    }

    /// The code of a sequence cut into tuples, or the default code where the sequence is empty or
    /// shorter than a tuple.
    pub fn from_seq_or_default(sequence: String, tuple_length: usize) -> (r: CircCode)
        requires
            tuple_length > 0,
        ensures
            r.wf(),
            !(sequence@.len() == 0 || tuple_length > sequence@.len()) ==> r.words() == dedup_words(
                tuples_of(sequence@, tuple_length as nat),
            ),
            (sequence@.len() == 0 || tuple_length > sequence@.len()) ==> r.words() == seq![seq!['A']],
    {
        match CircCode::new_from_seq(sequence, tuple_length) {
            Ok(c) => c,
            Err(_) => CircCode::default(),
        }
    }
}

/// A code from its words; the default code where they do not form one.
impl From<Vec<String>> for CircCode {
    fn from(code: Vec<String>) -> CircCode {
        CircCode::from_words_or_default(code)
    }
}

impl vstd::std_specs::convert::FromSpecImpl<Vec<String>> for CircCode {
    open spec fn obeys_from_spec() -> bool {
        false
    }

    open spec fn from_spec(v: Vec<String>) -> CircCode {
        arbitrary()
    }
}

/// A code from a sequence and a tuple length; the default code where they do not give one,
/// a tuple length of 0 included.
impl From<(String, usize)> for CircCode {
    fn from(t: (String, usize)) -> CircCode {
        if t.1 == 0 {
            return CircCode::default();
        }
        CircCode::from_seq_or_default(t.0, t.1)
    }
}

impl vstd::std_specs::convert::FromSpecImpl<(String, usize)> for CircCode {
    open spec fn obeys_from_spec() -> bool {
        false
    }

    open spec fn from_spec(v: (String, usize)) -> CircCode {
        arbitrary()
    }
}

/// Whether every word of `a` is also a word of `b`.
fn words_included(a: &Vec<String>, b: &Vec<String>) -> (r: bool)
    ensures
        r == (forall|x: Seq<char>| word_views(a@).contains(x) ==> word_views(b@).contains(x)),
{
    let mut i: usize = 0;
    while i < a.len()
        invariant
            0 <= i <= a.len(),
            forall|k: int| 0 <= k < i ==> word_views(b@).contains(#[trigger] word_views(a@)[k]),
        decreases a.len() - i,
    {
        assert(word_views(a@)[i as int] == a@[i as int]@);
        if !contains_word(b, &a[i]) {
            assert(word_views(a@).contains(a@[i as int]@));
            return false;
        }
        i += 1;
    }
    assert forall|x: Seq<char>| word_views(a@).contains(x) implies word_views(b@).contains(x) by {
        let k = choose|k: int| 0 <= k < word_views(a@).len() && word_views(a@)[k] == x;
    }
    true
}

/// Two codes are equal when they hold the same words, in any order.
impl PartialEq for CircCode {
    fn eq(&self, other: &CircCode) -> (r: bool) {
        let r = words_included(&self.code, &other.code) && words_included(&other.code, &self.code);
        assert(r == (self.words().to_set() == other.words().to_set())) by {
            if r {
                assert(self.words().to_set() =~= other.words().to_set());
            }
            if self.words().to_set() == other.words().to_set() {
                assert forall|x: Seq<char>| self.words().contains(x) implies other.words().contains(x) by {
                    assert(self.words().to_set().contains(x));
                }
                assert forall|x: Seq<char>| other.words().contains(x) implies self.words().contains(x) by {
                    assert(other.words().to_set().contains(x));
                }
            }
        }
        r
    }
}

impl vstd::std_specs::cmp::PartialEqSpecImpl for CircCode {
    open spec fn obeys_eq_spec() -> bool {
        true
    }

    open spec fn eq_spec(&self, other: &CircCode) -> bool {
        self.words().to_set() == other.words().to_set()
    }
}

/// `w` rotated by `sh`, for a non-empty `w`.
fn rotate_word(w: &String, sh: i32) -> (r: String)
    requires
        w@.len() > 0,
    ensures
        r@ == rotate(w@, sh as int),
{
    let s = w.as_str();
    let l = s.unicode_len();
    let k: usize = if sh >= 0 {
        (sh as usize) % l
    } else {
        let a: i64 = -(sh as i64);
        let m = (a as usize) % l;
        proof {
            lemma_negative_mod(a as int, l as int);
        }
        if m == 0 {
            0
        } else {
            l - m
        }
    };
    assert(k == (sh as int) % (l as int));
    let mut r = String::from_str(s.substring_char(k, l));
    r.append(s.substring_char(0, k));
    r
}

proof fn lemma_negative_mod(a: int, l: int)
    requires
        a > 0,
        l > 0,
    ensures
        a % l == 0 ==> (-a) % l == 0,
        a % l != 0 ==> (-a) % l == l - a % l,
{
    lemma_fundamental_div_mod(a, l);
    let q = a / l;
    let m = a % l;
    if m == 0 {
        assert(-a == (-q) * l + 0) by (nonlinear_arith)
            requires a == l * q + m, m == 0;
        lemma_fundamental_div_mod_converse(-a, l, -q, 0);
    } else {
        assert(-a == (-q - 1) * l + (l - m)) by (nonlinear_arith)
            requires a == l * q + m;
        lemma_fundamental_div_mod_converse(-a, l, -q - 1, l - m);
    }
}

/// Position `i` of a rotated word.
proof fn lemma_rotate_index(w: Seq<char>, sh: int, i: int)
    requires
        w.len() > 0,
        0 <= i < w.len(),
    ensures
        rotate(w, sh).len() == w.len(),
        rotate(w, sh)[i] == w[(i + sh) % (w.len() as int)],
{
    let l = w.len() as int;
    let k = sh % l;
    lemma_add_mod_noop_right(i, sh, l);
    if i + k < l {
        lemma_small_mod((i + k) as nat, l as nat);
    } else {
        lemma_mod_sub_multiples_vanish(i + k, l);
        lemma_small_mod((i + k - l) as nat, l as nat);
    }
}

/// Rotating by `a` and then by `b` is rotating by `a + b`.
pub proof fn lemma_rotate_compose(w: Seq<char>, a: int, b: int)
    ensures
        rotate(rotate(w, a), b) == rotate(w, a + b),
{
    if w.len() > 0 {
        let l = w.len() as int;
        assert forall|i: int| 0 <= i < l implies rotate(rotate(w, a), b)[i] == rotate(w, a + b)[i] by {
            lemma_rotate_index(w, a, 0);
            lemma_rotate_index(rotate(w, a), b, i);
            lemma_mod_bound(i + b, l);
            lemma_rotate_index(w, a, (i + b) % l);
            lemma_rotate_index(w, a + b, i);
            lemma_add_mod_noop_right((i + b) % l, a, l);
            lemma_add_mod_noop(i + b, a, l);
            lemma_mod_twice(i + b, l);
            assert(i + b + a == i + (a + b));
        }
        lemma_rotate_index(w, a, 0);
        lemma_rotate_index(w, a + b, 0);
        assert(rotate(rotate(w, a), b) =~= rotate(w, a + b));
    }
}

/// Rotating by zero keeps a word.
pub proof fn lemma_rotate_zero(w: Seq<char>)
    ensures
        rotate(w, 0) == w,
{
    if w.len() > 0 {
        assert(rotate(w, 0) =~= w);
    }
}

proof fn lemma_rotate_contains(w: Seq<char>, sh: int, c: char)
    ensures
        rotate(w, sh).len() == w.len(),
        rotate(w, sh).contains(c) <==> w.contains(c),
{
    if w.len() > 0 {
        let l = w.len() as int;
        let k = sh % l;
        lemma_mod_bound(sh, l);
        let r = rotate(w, sh);
        assert(r == w.subrange(k, l) + w.subrange(0, k));
        assert(r.len() == l);
        if r.contains(c) {
            let i = choose|i: int| 0 <= i < l && r[i] == c;
            if i < l - k {
                assert(r[i] == w[i + k]);
                assert(w.contains(c)) by {
                    assert(w[i + k] == c);
                }
            } else {
                assert(r[i] == w[i - (l - k)]);
                assert(w.contains(c)) by {
                    assert(w[i - (l - k)] == c);
                }
            }
        }
        if w.contains(c) {
            let j = choose|j: int| 0 <= j < l && w[j] == c;
            if j >= k {
                assert(r[j - k] == w[j]);
                assert(r.contains(c)) by {
                    assert(r[j - k] == c);
                }
            } else {
                assert(r[j + (l - k)] == w[j]);
                assert(r.contains(c)) by {
                    assert(r[j + (l - k)] == c);
                }
            }
        }
    }
}

proof fn lemma_rotate_all_keeps_wf(ws: Seq<Seq<char>>, sh: int, lens: Seq<usize>, alpha: Seq<char>)
    requires
        ws.len() > 0,
        forall|i: int| 0 <= i < ws.len() ==> #[trigger] ws[i].len() > 0,
        ws.no_duplicates(),
        is_lengths_of(lens, ws),
        is_alphabet_of(alpha, ws),
    ensures
        ({
            let rs = rotate_all(ws, sh);
            &&& rs.len() > 0
            &&& forall|i: int| 0 <= i < rs.len() ==> #[trigger] rs[i].len() > 0
            &&& rs.no_duplicates()
            &&& is_lengths_of(lens, rs)
            &&& is_alphabet_of(alpha, rs)
        }),
{
    let rs = rotate_all(ws, sh);
    assert forall|i: int| 0 <= i < rs.len() implies #[trigger] rs[i].len() == ws[i].len() by {
        lemma_rotate_index(ws[i], sh, 0);
    }
    assert forall|i: int, j: int| 0 <= i < j < rs.len() implies rs[i] != rs[j] by {
        if rs[i] == rs[j] {
            lemma_rotate_compose(ws[i], sh, -sh);
            lemma_rotate_compose(ws[j], sh, -sh);
            lemma_rotate_zero(ws[i]);
            lemma_rotate_zero(ws[j]);
        }
    }
    assert forall|n: usize| lens.contains(n) <==> uses_length(rs, n as int) by {
        if uses_length(rs, n as int) {
            let k = choose|k: int| 0 <= k < rs.len() && #[trigger] rs[k].len() == n;
            assert(ws[k].len() == n);
        }
        if uses_length(ws, n as int) {
            let k = choose|k: int| 0 <= k < ws.len() && #[trigger] ws[k].len() == n;
            assert(rs[k].len() == n);
        }
    }
    assert forall|c: char| alpha.contains(c) <==> uses_symbol(rs, c) by {
        if uses_symbol(rs, c) {
            let k = choose|k: int| 0 <= k < rs.len() && #[trigger] rs[k].contains(c);
            lemma_rotate_contains(ws[k], sh, c);
        }
        if uses_symbol(ws, c) {
            let k = choose|k: int| 0 <= k < ws.len() && #[trigger] ws[k].contains(c);
            lemma_rotate_contains(ws[k], sh, c);
            assert(rs[k].contains(c));
        }
    }
}

/// Rotating every word by `s` and then by `-s` gives the words back.
pub proof fn lemma_shift_round_trip(ws: Seq<Seq<char>>, s: int)
    ensures
        rotate_all(rotate_all(ws, s), -s) == ws,
{
    assert forall|i: int| 0 <= i < ws.len() implies rotate_all(rotate_all(ws, s), -s)[i] == ws[i] by {
        lemma_rotate_compose(ws[i], s, -s);
        lemma_rotate_zero(ws[i]);
    }
    assert(rotate_all(rotate_all(ws, s), -s) =~= ws);
}

proof fn lemma_tuples_len(s: Seq<char>, t: nat)
    requires
        t > 0,
    ensures
        forall|m: int| 0 <= m < tuples_of(s, t).len() ==> (#[trigger] tuples_of(s, t)[m]).len() == t,
{
    assert forall|m: int| 0 <= m < tuples_of(s, t).len() implies (#[trigger] tuples_of(s, t)[m]).len() == t by {
        let q = s.len() / t;
        lemma_fundamental_div_mod(s.len() as int, t as int);
        assert(m + 1 <= q);
        assert((m + 1) * t <= q * t) by (nonlinear_arith)
            requires m + 1 <= q, t > 0;
        assert(t * q == q * t) by (nonlinear_arith);
        assert(0 <= m * t) by (nonlinear_arith)
            requires m >= 0, t > 0;
        assert((m + 1) * t == m * t + t) by (nonlinear_arith);
    }
}

proof fn lemma_uses_length_step(ws: Seq<Seq<char>>, j: int)
    requires
        0 <= j < ws.len(),
    ensures
        forall|n: int|
            uses_length(ws.subrange(0, j + 1), n) <==> (uses_length(ws.subrange(0, j), n)
                || ws[j].len() == n),
{
    let pre = ws.subrange(0, j);
    let nxt = ws.subrange(0, j + 1);
    assert forall|n: int| uses_length(nxt, n) <==> (uses_length(pre, n) || ws[j].len() == n) by {
        if uses_length(nxt, n) {
            let k = choose|k: int| 0 <= k < nxt.len() && #[trigger] nxt[k].len() == n;
            if k < j {
                assert(pre[k] == nxt[k]);
            }
        }
        if uses_length(pre, n) {
            let k = choose|k: int| 0 <= k < pre.len() && #[trigger] pre[k].len() == n;
            assert(pre[k] == nxt[k]);
        }
        if ws[j].len() == n {
            assert(nxt[j] == ws[j]);
        }
    }
}


// ---------------------------------------------------------------------------
// Properties of a code, read off its graphs.

/// The code is circular: its split graph can be built and has no cycle.
pub open spec fn circular_spec(ws: Seq<Seq<char>>, a: Seq<char>) -> bool {
    splits_indexable(ws, a) && !has_cycle(split_arcs(ws, a))
}

/// The code is circular and its longest path has at most `bound` edges.
pub open spec fn bounded_paths_spec(ws: Seq<Seq<char>>, a: Seq<char>, bound: nat) -> bool {
    &&& circular_spec(ws, a)
    &&& exists|l: nat| #[trigger] longest_source_walk_len(split_arcs(ws, a), l) && l <= bound
}

/// The code is circular and its longest path has exactly one edge.
pub open spec fn single_edge_paths_spec(ws: Seq<Seq<char>>, a: Seq<char>) -> bool {
    &&& circular_spec(ws, a)
    &&& exists|l: nat| #[trigger] longest_source_walk_len(split_arcs(ws, a), l) && l == 1
}

/// The k of a cycle with `c` edges: `c / 2 - 1` for even `c`, `c - 1` for odd `c`, kept below
/// the value that means unbounded.
pub open spec fn k_of_cycle_len(c: nat) -> int {
    let k: int = if c % 2 == 0 {
        c / 2 - 1
    } else {
        c - 1
    };
    if k >= u32::MAX {
        u32::MAX - 1
    } else {
        k
    }
}

/// Where the split graph cannot be built or has no cycle, the k of a code is unbounded.
pub open spec fn k_unbounded(ws: Seq<Seq<char>>, a: Seq<char>) -> bool {
    !(splits_indexable(ws, a) && has_cycle(split_arcs(ws, a)))
}

impl CircCode {
    /// Whether the words form a code. A `false` comes with a sequence that has two
    /// decompositions into the words.
    pub fn is_code(&self) -> (r: bool)
        requires
            self.wf(),
        ensures
            r == walks_decide_code(rows_of(self.words())),
            !r ==> exists|s: Seq<char>| #[trigger] is_ambiguous(self.words(), s),
    {
        let graph = CodeGraph::new(self);
        graph.is_code()
    }

    /// Whether the words form a code, with the sequences found that have two decompositions.
    pub fn all_ambiguous_sequences(&self) -> (r: (bool, Vec<String>))
        requires
            self.wf(),
        ensures
            r.0 == walks_decide_code(rows_of(self.words())),
            r.0 == (r.1@.len() == 0),
            forall|k: int| 0 <= k < r.1@.len() ==> is_ambiguous(self.words(), (#[trigger] r.1@[k])@),
    {
        let graph = CodeGraph::new(self);
        graph.all_ambiguous_sequences()
    }

    /// The split graph of the code.
    pub fn get_associated_graph(&self) -> (r: Result<CircGraph, CircGraphErr>)
        requires
            self.wf(),
        ensures
            r is Ok <==> splits_indexable(self.words(), self.alphabet@),
            !(r is Ok) ==> r == Err::<CircGraph, CircGraphErr>(CircGraphErr::VertexErr),
            r is Ok ==> r->Ok_0.arcs() == split_arcs(self.words(), self.alphabet@),
    {
        match CircGraph::new(self) {
            Ok(graph) => Ok(graph),
            Err(e) => Err(e),
        }
    }

    /// Whether the code is circular: its split graph has no cycle. Where the graph cannot be
    /// built the answer is `false`.
    pub fn is_circular(&self) -> (r: bool)
        requires
            self.wf(),
        ensures
            r == circular_spec(self.words(), self.alphabet@),
    {
        let graph = match CircGraph::new(self) {
            Ok(graph) => graph,
            Err(_) => {
                return false;
            },
        };
        !graph.is_cyclic()
    }

    /// The number of edges of the longest paths, or `None` where the graph cannot be built or
    /// has a cycle.
    fn longest_path_len(&self) -> (r: Option<usize>)
        requires
            self.wf(),
        ensures
            r is Some <==> circular_spec(self.words(), self.alphabet@),
            r is Some ==> longest_source_walk_len(split_arcs(self.words(), self.alphabet@), r->Some_0 as nat),
    {
        match CircGraph::new(self) {
            Ok(graph) => graph.longest_path_len(),
            Err(_) => None,
        }
    }

    /// Whether the code is comma-free: circular, with no path of more than two edges.
    pub fn is_comma_free(&self) -> (r: bool)
        requires
            self.wf(),
        ensures
            r == bounded_paths_spec(self.words(), self.alphabet@, 2),
    {
        match self.longest_path_len() {
            Some(l) => {
                proof {
                    if bounded_paths_spec(self.words(), self.alphabet@, 2) {
                        let m = choose|m: nat| #[trigger] longest_source_walk_len(split_arcs(self.words(), self.alphabet@), m) && m <= 2;
                        lemma_longest_len_unique(split_arcs(self.words(), self.alphabet@), m, l as nat);
                    }
                }
                l <= 2
            },
            None => false,
        }
    }

    /// Whether the code is strong comma-free: circular, with paths of one edge only.
    pub fn is_strong_comma_free(&self) -> (r: bool)
        requires
            self.wf(),
        ensures
            r == single_edge_paths_spec(self.words(), self.alphabet@),
    {
        match self.longest_path_len() {
            Some(l) => {
                proof {
                    if single_edge_paths_spec(self.words(), self.alphabet@) {
                        let m = choose|m: nat| #[trigger] longest_source_walk_len(split_arcs(self.words(), self.alphabet@), m) && m == 1;
                        lemma_longest_len_unique(split_arcs(self.words(), self.alphabet@), m, l as nat);
                    }
                }
                l == 1
            },
            None => false,
        }
    }

    /// The exact k for which the code is k-circular, from the longest cycle of the split graph;
    /// `u32::MAX` where the graph has no cycle or cannot be built.
    pub fn get_exact_k_circular(&self) -> (r: u32)
        requires
            self.wf(),
        ensures
            (r == u32::MAX) == k_unbounded(self.words(), self.alphabet@),
            r != u32::MAX ==> exists|c: Seq<(u64, u64)>|
                #[trigger] is_longest_simple_cycle(split_arcs(self.words(), self.alphabet@), c) && r == k_of_cycle_len(
                    c.len(),
                ),
    {
        let graph = match CircGraph::new(self) {
            Ok(graph) => graph,
            Err(_) => {
                return u32::MAX;
            },
        };
        let c = match graph.longest_cycle_len() {
            None => {
                return u32::MAX;
            },
            Some(c) => c,
        };
        let k: usize = if c % 2 == 0 {
            c / 2 - 1
        } else {
            c - 1
        };
        if k >= u32::MAX as usize {
            return u32::MAX - 1;
        }
        k as u32
    }

    /// A copy of the code.
    fn duplicate(&self) -> (r: CircCode)
        ensures
            r.words() == self.words(),
            r.tuple_length@ == self.tuple_length@,
            r.alphabet@ == self.alphabet@,
            r.id@ == self.id@,
    {
        CircCode {
            id: self.id.clone(),
            code: copy_strings(&self.code),
            tuple_length: self.tuple_length.clone(),
            alphabet: self.alphabet.clone(),
        }
    }

    /// Whether the code is Cn-circular: circular, and circular again after each rotation of all
    /// words by 1 up to (not including) the greatest word length.
    pub fn is_cn_circular(&self) -> (r: bool)
        requires
            self.wf(),
        ensures
            r == (circular_spec(self.words(), self.alphabet@) && forall|i: int|
                1 <= i < self.tuple_length@.last() ==> #[trigger] circular_spec(
                    rotate_all(self.words(), i),
                    self.alphabet@,
                )),
    {
        let mut copy_code = self.duplicate();
        let l0 = self.code[0].as_str().unicode_len();
        proof {
            let ws = self.words();
            assert(ws[0].len() == l0);
            assert(uses_length(ws, l0 as int));
            assert(self.tuple_length@.contains(l0));
            assert forall|w: int| 0 <= w < ws.len() implies rotate_all(ws, 0)[w] == ws[w] by {
                lemma_rotate_zero(ws[w]);
            }
            assert(rotate_all(ws, 0) =~= ws);
        }
        let top = self.tuple_length[self.tuple_length.len() - 1];
        let mut i: usize = 1;
        while i < top
            invariant
                self.wf(),
                copy_code.wf(),
                top == self.tuple_length@.last(),
                1 <= i,
                i <= top || top == 0,
                copy_code.words() == rotate_all(self.words(), (i - 1) as int),
                copy_code.alphabet@ == self.alphabet@,
                forall|j: int| 1 <= j < i ==> #[trigger] circular_spec(rotate_all(self.words(), j), self.alphabet@),
            decreases top - i,
        {
            copy_code.shift(1);
            proof {
                assert forall|w: int| 0 <= w < self.words().len() implies rotate_all(rotate_all(self.words(), (i - 1) as int), 1)[w]
                    == rotate_all(self.words(), i as int)[w] by {
                    lemma_rotate_compose(self.words()[w], (i - 1) as int, 1);
                }
                assert(rotate_all(rotate_all(self.words(), (i - 1) as int), 1) =~= rotate_all(self.words(), i as int));
            }
            if !copy_code.is_circular() {
                return false;
            }
            i += 1;
        }
        self.is_circular()
    }
}

proof fn lemma_longest_len_unique(arcs: Set<(u64, u64)>, a: nat, b: nat)
    requires
        longest_source_walk_len(arcs, a),
        longest_source_walk_len(arcs, b),
    ensures
        a == b,
{
    if a > 0 {
        let w = choose|w: Seq<(u64, u64)>| #[trigger] is_source_walk(arcs, w) && w.len() == a;
    }
    if b > 0 {
        let w = choose|w: Seq<(u64, u64)>| #[trigger] is_source_walk(arcs, w) && w.len() == b;
    }
}

} // verus!
