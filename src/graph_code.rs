use vstd::prelude::*;
use vstd::string::*;
use vstd::arithmetic::div_mod::*;
use crate::code::{CircCode, word_views};

verus! {

/// The symbol that stands before every word: the root of the graph.
pub const ROOT: char = '_';

/// The rows of the decidability graph of `ws`: the root alone, then each word after the root.
pub open spec fn rows_of(ws: Seq<Seq<char>>) -> Seq<Seq<char>> {
    seq![seq![ROOT]] + ws.map_values(|w: Seq<char>| seq![ROOT] + w)
}

/// The words of `ws` at the positions `f`, one after the other.
pub open spec fn flat(ws: Seq<Seq<char>>, f: Seq<usize>) -> Seq<char>
    decreases f.len(),
{
    if f.len() == 0 {
        Seq::empty()
    } else {
        flat(ws, f.drop_last()) + ws[f.last() as int]
    }
}

/// The symbol sequences of the rows.
pub open spec fn row_views(e: Seq<Vec<char>>) -> Seq<Seq<char>> {
    e.map_values(|r: Vec<char>| r@)
}

/// `f` lists positions of words of `ws`.
pub open spec fn is_factorization(ws: Seq<Seq<char>>, f: Seq<usize>) -> bool {
    &&& f.len() > 0
    &&& forall|k: int| 0 <= k < f.len() ==> #[trigger] f[k] < ws.len()
}

/// `s` has two decompositions into words of `ws` that start with different words.
pub open spec fn is_ambiguous(ws: Seq<Seq<char>>, s: Seq<char>) -> bool {
    exists|f1: Seq<usize>, f2: Seq<usize>|
        #[trigger] is_factorization(ws, f1) && #[trigger] is_factorization(ws, f2) && ws[f1[0] as int] != ws[f2[0] as int]
            && flat(ws, f1) == s && flat(ws, f2) == s
}

/// The decidability graph of a code: each word, after the root symbol, is a row of positions
/// that two walkers run through side by side.
pub struct CodeGraph {
    /// The rows: the root alone, then each word after the root.
    pub e: Vec<Vec<char>>,
    /// The words.
    pub words: Vec<String>,
}

/// A pair of walker positions, each a row and a place in it.
pub type PosPair = ((usize, usize), (usize, usize));

impl CodeGraph {
    /// The words as symbol sequences.
    pub open spec fn ws(&self) -> Seq<Seq<char>> {
        word_views(self.words@)
    }

    /// The rows as symbol sequences.
    pub open spec fn rows(&self) -> Seq<Seq<char>> {
        row_views(self.e@)
    }

    /// Rows built from duplicate-free, non-empty words.
    pub open spec fn wf(&self) -> bool {
        &&& self.rows() == rows_of(self.ws())
        &&& self.ws().no_duplicates()
        &&& forall|i: int| 0 <= i < self.ws().len() ==> #[trigger] self.ws()[i].len() > 0
    }

    /// The graph of a code.
    pub fn new(x: &CircCode) -> (r: Self)
        requires
            x.wf(),
        ensures
            r.wf(),
            r.ws() == x.words(),
    {
        let mut e: Vec<Vec<char>> = Vec::new();
        let mut root: Vec<char> = Vec::new();
        root.push(ROOT);
        e.push(root);
        let mut words: Vec<String> = Vec::new();
        let mut i: usize = 0;
        while i < x.code.len()
            invariant
                x.wf(),
                0 <= i <= x.words().len(),
                e@.len() == i + 1,
                words@.len() == i,
                word_views(words@) == x.words().subrange(0, i as int),
                row_views(e@) == rows_of(x.words().subrange(0, i as int)),
            decreases x.words().len() - i,
        {
            let w = x.code[i].as_str();
            let n = w.unicode_len();
            let mut row: Vec<char> = Vec::new();
            row.push(ROOT);
            let mut j: usize = 0;
            while j < n
                invariant
                    n == w@.len(),
                    0 <= j <= n,
                    row@ == seq![ROOT] + w@.subrange(0, j as int),
                decreases n - j,
            {
                row.push(w.get_char(j));
                assert(row@ =~= seq![ROOT] + w@.subrange(0, j + 1));
                j += 1;
            }
            assert(w@.subrange(0, n as int) =~= w@);
            let ghost old_e = e@;
            let ghost old_words = words@;
            e.push(row);
            words.push(x.code[i].clone());
            assert(x.words()[i as int] == w@);
            assert(word_views(words@) =~= x.words().subrange(0, i + 1)) by {
                assert forall|k: int| 0 <= k < i + 1 implies word_views(words@)[k] == x.words().subrange(0, i + 1)[k] by {
                    if k < i {
                        assert(words@[k] == old_words[k]);
                        assert(word_views(old_words)[k] == x.words().subrange(0, i as int)[k]);
                    }
                }
            }
            assert(row_views(e@) =~= rows_of(x.words().subrange(0, i + 1))) by {
                assert forall|k: int| 0 <= k < i + 2 implies #[trigger] row_views(e@)[k] == rows_of(
                    x.words().subrange(0, i + 1),
                )[k] by {
                    if k < i + 1 {
                        assert(e@[k] == old_e[k]);
                        assert(row_views(old_e)[k] == rows_of(x.words().subrange(0, i as int))[k]);
                    }
                }
            }
            i += 1;
        }
        assert(x.words().subrange(0, x.words().len() as int) =~= x.words());
        CodeGraph { e, words }
    }
}


// ---------------------------------------------------------------------------
// The walk of two positions side by side.

/// The longest row.
pub open spec fn max_len(rows: Seq<Seq<char>>) -> nat
    decreases rows.len(),
{
    if rows.len() == 0 {
        0
    } else {
        let m = max_len(rows.drop_last());
        if rows.last().len() > m {
            rows.last().len()
        } else {
            m
        }
    }
}

proof fn lemma_max_len(rows: Seq<Seq<char>>)
    ensures
        forall|r: int| 0 <= r < rows.len() ==> (#[trigger] rows[r]).len() <= max_len(rows),
    decreases rows.len(),
{
    if rows.len() > 0 {
        lemma_max_len(rows.drop_last());
        assert forall|r: int| 0 <= r < rows.len() implies (#[trigger] rows[r]).len() <= max_len(rows) by {
            if r < rows.len() - 1 {
                assert(rows[r] == rows.drop_last()[r]);
            }
        }
    }
}

/// `p` is a position of `rows`: a row and a place in it.
pub open spec fn valid_pos(rows: Seq<Seq<char>>, p: (usize, usize)) -> bool {
    p.0 < rows.len() && p.1 < rows[p.0 as int].len()
}

/// A number for each position, below `rows.len() * (max_len(rows) + 1)`.
pub open spec fn pos_code(rows: Seq<Seq<char>>, p: (usize, usize)) -> int {
    p.0 * (max_len(rows) + 1) + p.1
}

/// The number of positions that `pos_code` can give.
pub open spec fn pos_bound(rows: Seq<Seq<char>>) -> int {
    (rows.len() * (max_len(rows) + 1)) as int
}

/// A number for each pair of positions, below `pos_bound(rows)` squared.
pub open spec fn pair_code(rows: Seq<Seq<char>>, k: PosPair) -> int {
    pos_code(rows, k.0) * pos_bound(rows) + pos_code(rows, k.1)
}

/// How many pairs of positions there are at most.
pub open spec fn pair_bound(rows: Seq<Seq<char>>) -> int {
    pos_bound(rows) * pos_bound(rows)
}

proof fn lemma_pos_code(rows: Seq<Seq<char>>, p: (usize, usize), q: (usize, usize))
    requires
        valid_pos(rows, p),
        valid_pos(rows, q),
    ensures
        0 <= pos_code(rows, p) < pos_bound(rows),
        pos_code(rows, p) == pos_code(rows, q) ==> p == q,
{
    lemma_max_len(rows);
    let w: int = max_len(rows) as int + 1;
    let n = rows.len() as int;
    assert(rows[p.0 as int].len() <= max_len(rows));
    assert(p.1 < w);
    assert(0 <= p.0 * w + p.1 < n * w) by (nonlinear_arith)
        requires
            0 <= p.0 < n,
            0 <= p.1 < w,
    ;
    assert(rows[q.0 as int].len() <= max_len(rows));
    if pos_code(rows, p) == pos_code(rows, q) {
        lemma_fundamental_div_mod_converse(pos_code(rows, p), w, p.0 as int, p.1 as int);
        lemma_fundamental_div_mod_converse(pos_code(rows, q), w, q.0 as int, q.1 as int);
    }
}

proof fn lemma_pair_code(rows: Seq<Seq<char>>, a: PosPair, b: PosPair)
    requires
        valid_pos(rows, a.0),
        valid_pos(rows, a.1),
        valid_pos(rows, b.0),
        valid_pos(rows, b.1),
    ensures
        0 <= pair_code(rows, a) < pair_bound(rows),
        pair_code(rows, a) == pair_code(rows, b) ==> a == b,
{
    lemma_pos_code(rows, a.0, b.0);
    lemma_pos_code(rows, a.1, b.1);
    lemma_pos_code(rows, b.0, a.0);
    lemma_pos_code(rows, b.1, a.1);
    let pb = pos_bound(rows);
    let x = pos_code(rows, a.0);
    let y = pos_code(rows, a.1);
    assert(0 <= x * pb + y < pb * pb) by (nonlinear_arith)
        requires
            0 <= x < pb,
            0 <= y < pb,
    ;
    if pair_code(rows, a) == pair_code(rows, b) {
        lemma_fundamental_div_mod_converse(pair_code(rows, a), pb, x, y);
        lemma_fundamental_div_mod_converse(pair_code(rows, b), pb, pos_code(rows, b.0), pos_code(rows, b.1));
    }
}

/// A history of distinct pairs of positions is no longer than the number of such pairs.
proof fn lemma_history_bound(rows: Seq<Seq<char>>, h: Seq<PosPair>)
    requires
        h.no_duplicates(),
        forall|k: int| 0 <= k < h.len() ==> valid_pos(rows, (#[trigger] h[k]).0) && valid_pos(rows, h[k].1),
    ensures
        h.len() <= pair_bound(rows),
{
    let codes = h.map_values(|k: PosPair| pair_code(rows, k));
    assert forall|i: int, j: int| 0 <= i < codes.len() && 0 <= j < codes.len() && i != j implies codes[i] != codes[j] by {
        lemma_pair_code(rows, h[i], h[j]);
    }
    assert(codes.no_duplicates());
    codes.unique_seq_to_set();
    let m = pair_bound(rows);
    assert(m >= 0) by (nonlinear_arith)
        requires
            m == pos_bound(rows) * pos_bound(rows),
    ;
    vstd::set_lib::lemma_int_range(0, m);
    assert(codes.to_set().subset_of(vstd::set_lib::set_int_range(0, m))) by {
        assert forall|x: int| codes.to_set().contains(x) implies vstd::set_lib::set_int_range(0, m).contains(x) by {
            assert(codes.contains(x));
            let k = choose|k: int| 0 <= k < codes.len() && codes[k] == x;
            lemma_pair_code(rows, h[k], h[k]);
        }
    }
    vstd::set_lib::lemma_len_subset(codes.to_set(), vstd::set_lib::set_int_range(0, m));
}

/// The word a walker started with: the first it completed, or the one it is in.
pub open spec fn first_word(d: Seq<usize>, p: (usize, usize)) -> int {
    if d.len() > 0 {
        d[0] as int
    } else {
        p.0 - 1
    }
}

/// The state of two walkers: each has completed the words at the positions in its list and
/// stands inside a further word; both have read the same symbols, and they started with
/// different words.
pub open spec fn walkers_ok(ws: Seq<Seq<char>>, p0: (usize, usize), p1: (usize, usize), d0: Seq<usize>, d1: Seq<usize>) -> bool {
    &&& 1 <= p0.0 <= ws.len()
    &&& 1 <= p1.0 <= ws.len()
    &&& p0.1 <= ws[p0.0 - 1].len()
    &&& p1.1 <= ws[p1.0 - 1].len()
    &&& forall|k: int| 0 <= k < d0.len() ==> #[trigger] d0[k] < ws.len()
    &&& forall|k: int| 0 <= k < d1.len() ==> #[trigger] d1[k] < ws.len()
    &&& flat(ws, d0) + ws[p0.0 - 1].subrange(0, p0.1 as int) == flat(ws, d1) + ws[p1.0 - 1].subrange(0, p1.1 as int)
    &&& ws[first_word(d0, p0)] != ws[first_word(d1, p1)]
}


/// The pair `(p0, p1)` in increasing order.
pub open spec fn sorted_pair(p0: (usize, usize), p1: (usize, usize)) -> PosPair {
    if p0.0 < p1.0 || (p0.0 == p1.0 && p0.1 <= p1.1) {
        (p0, p1)
    } else {
        (p1, p0)
    }
}

/// A walker at `p` has ended its word, or stands at the root.
pub open spec fn at_boundary(rows: Seq<Seq<char>>, p: (usize, usize)) -> bool {
    (p.0 == 0 && p.1 == 0) || rows[p.0 as int].len() - 1 == p.1
}

/// The outcome of the side-by-side walk from `p0` and `p1` after the pairs in `hist`: `false`
/// where some branch has both walkers end a word together after reading the same symbols.
/// `fuel` counts the pairs of positions still unmet.
pub open spec fn walk_is_code(rows: Seq<Seq<char>>, p0: (usize, usize), p1: (usize, usize), hist: Seq<PosPair>, fuel: nat) -> bool
    decreases fuel, 0nat,
{
    if fuel == 0 {
        true
    } else if hist.contains(sorted_pair(p0, p1)) {
        true
    } else {
        let h = hist.push(sorted_pair(p0, p1));
        if at_boundary(rows, p0) {
            restarts_are_code(rows, p1, h, (fuel - 1) as nat, 1)
        } else if at_boundary(rows, p1) {
            restarts_are_code(rows, p0, h, (fuel - 1) as nat, 1)
        } else {
            let a = (p0.0, (p0.1 + 1) as usize);
            let b = (p1.0, (p1.1 + 1) as usize);
            if rows[a.0 as int][a.1 as int] != rows[b.0 as int][b.1 as int] {
                true
            } else if rows[a.0 as int].len() - 1 == a.1 && rows[b.0 as int].len() - 1 == b.1 {
                false
            } else {
                walk_is_code(rows, a, b, h, (fuel - 1) as nat)
            }
        }
    }
}

/// The walks that restart one walker at the start of each word from the `k`-th on, the other
/// staying at `other`.
pub open spec fn restarts_are_code(rows: Seq<Seq<char>>, other: (usize, usize), hist: Seq<PosPair>, fuel: nat, k: int) -> bool
    decreases fuel, (if k < rows.len() { rows.len() - k + 1 } else { 0 }) as nat,
{
    if k >= rows.len() || k < 0 {
        true
    } else {
        walk_is_code(rows, (k as usize, 0usize), other, hist, fuel) && restarts_are_code(rows, other, hist, fuel, k + 1)
    }
}

/// The walks of every pair of different words from the pair `(i, j)` on, in order.
pub open spec fn pairs_are_code(rows: Seq<Seq<char>>, i: int, j: int) -> bool
    decreases (if i < rows.len() { rows.len() - i } else { 0 }) as nat, (if j < rows.len() { rows.len() - j + 1 } else { 0 }) as nat,
{
    if i < 1 || i >= rows.len() - 1 {
        true
    } else if j >= rows.len() || j <= i {
        pairs_are_code(rows, i + 1, i + 2)
    } else {
        walk_is_code(rows, (i as usize, 0usize), (j as usize, 0usize), Seq::empty(), pair_bound(rows) as nat) && pairs_are_code(
            rows,
            i,
            j + 1,
        )
    }
}

/// The walks of all pairs of different words find no sequence with two decompositions.
pub open spec fn walks_decide_code(rows: Seq<Seq<char>>) -> bool {
    pairs_are_code(rows, 1, 2)
}

/// The positions in `d` with `w` after them.
proof fn lemma_flat_push(ws: Seq<Seq<char>>, d: Seq<usize>, w: usize)
    ensures
        flat(ws, d.push(w)) == flat(ws, d) + ws[w as int],
{
    assert(d.push(w).drop_last() =~= d);
}

impl CodeGraph {
    /// The words at the positions in `f`, joined.
    fn join_words(&self, f: &Vec<usize>) -> (r: String)
        requires
            forall|k: int| 0 <= k < f@.len() ==> #[trigger] f@[k] < self.words@.len(),
        ensures
            r@ == flat(self.ws(), f@),
    {
        let mut r = String::new();
        let mut k: usize = 0;
        while k < f.len()
            invariant
                0 <= k <= f@.len(),
                forall|q: int| 0 <= q < f@.len() ==> #[trigger] f@[q] < self.words@.len(),
                r@ == flat(self.ws(), f@.subrange(0, k as int)),
            decreases f@.len() - k,
        {
            r.append(self.words[f[k]].as_str());
            assert(f@.subrange(0, k + 1).drop_last() =~= f@.subrange(0, k as int));
            assert(self.ws()[f@[k as int] as int] == self.words@[f@[k as int] as int]@);
            k += 1;
        }
        assert(f@.subrange(0, f@.len() as int) =~= f@);
        r
    }

    /// Walks two positions side by side from `p0` and `p1`. Where a walker ends a word, it
    /// restarts at each word in turn; where the next symbols differ the branch ends; where both
    /// end a word together, the symbols read so far have two decompositions. A pair of positions
    /// met before on the branch ends it. Returns false where some branch found two
    /// decompositions; with `find_all` every branch is walked and each sequence found is added
    /// to `found`.
    fn reg_is_code(
        &self,
        p0: (usize, usize),
        p1: (usize, usize),
        history: &mut Vec<PosPair>,
        d0: &mut Vec<usize>,
        d1: &mut Vec<usize>,
        find_all: bool,
        found: &mut Vec<String>,
    ) -> (r: bool)
        requires
            self.wf(),
            walkers_ok(self.ws(), p0, p1, old(d0)@, old(d1)@),
            old(history)@.no_duplicates(),
            forall|k: int| 0 <= k < old(history)@.len() ==> valid_pos(self.rows(), (#[trigger] old(history)@[k]).0)
                && valid_pos(self.rows(), old(history)@[k].1),
        ensures
            final(history)@ == old(history)@,
            final(d0)@ == old(d0)@,
            final(d1)@ == old(d1)@,
            !r ==> exists|s: Seq<char>| #[trigger] is_ambiguous(self.ws(), s),
            find_all ==> (r <==> final(found)@.len() == old(found)@.len()),
            !find_all ==> final(found)@ == old(found)@,
            final(found)@.len() >= old(found)@.len(),
            forall|k: int| 0 <= k < old(found)@.len() ==> #[trigger] final(found)@[k] == old(found)@[k],
            forall|k: int| old(found)@.len() <= k < final(found)@.len() ==> is_ambiguous(self.ws(), (#[trigger] final(found)@[k])@),
            r == walk_is_code(self.rows(), p0, p1, old(history)@, (pair_bound(self.rows()) - old(history)@.len()) as nat),
        decreases pair_bound(self.rows()) - old(history)@.len(),
    {
        let ghost ws = self.ws();
        let ghost rows = self.rows();
        let ghost fuel = (pair_bound(rows) - history@.len()) as nat;
        proof {
            lemma_history_bound(rows, history@);
        }
        assert(rows.len() == ws.len() + 1);
        assert(rows[p0.0 as int] == seq![ROOT] + ws[p0.0 - 1]);
        assert(rows[p1.0 as int] == seq![ROOT] + ws[p1.0 - 1]);
        let key = if p0.0 < p1.0 || (p0.0 == p1.0 && p0.1 <= p1.1) {
            (p0, p1)
        } else {
            (p1, p0)
        };
        let mut k: usize = 0;
        while k < history.len()
            invariant
                0 <= k <= history@.len(),
                key == sorted_pair(p0, p1),
                forall|q: int| 0 <= q < k ==> history@[q] != key,
            decreases history@.len() - k,
        {
            let h = history[k];
            if h.0.0 == key.0.0 && h.0.1 == key.0.1 && h.1.0 == key.1.0 && h.1.1 == key.1.1 {
                assert(history@[k as int] == key);
                assert(history@.contains(sorted_pair(p0, p1)));
                return true;
            }
            k += 1;
        }
        let ghost h_old = history@;
        history.push(key);
        proof {
            assert(history@.no_duplicates()) by {
                assert forall|i: int, j: int| 0 <= i < history@.len() && 0 <= j < history@.len() && i != j implies history@[i]
                    != history@[j] by {
                    if i < h_old.len() && j < h_old.len() {
                        assert(h_old[i] != h_old[j]);
                    }
                }
            }
            assert(valid_pos(rows, key.0) && valid_pos(rows, key.1));
            lemma_history_bound(rows, history@);
            assert(key == sorted_pair(p0, p1));
            assert(!h_old.contains(sorted_pair(p0, p1)));
            assert(fuel >= 1);
        }
        let n = self.e.len();
        let len0 = self.e[p0.0].len();
        let len1 = self.e[p1.0].len();
        assert(len0 == rows[p0.0 as int].len());
        assert(len1 == rows[p1.0 as int].len());
        if (p0.0 == 0 && p0.1 == 0) || len0 - 1 == p0.1 {
            assert(at_boundary(rows, p0));
            assert(walk_is_code(rows, p0, p1, h_old, fuel) == restarts_are_code(rows, p1, h_old.push(key), (fuel - 1) as nat, 1));
            let mut is_code = true;
            let mut c: usize = 1;
            while c < n
                invariant
                    self.wf(),
                    ws == self.ws(),
                    rows == self.rows(),
                    n == rows.len(),
                    1 <= c <= n,
                    history@ == h_old.push(key),
                    h_old == old(history)@,
                    history@.no_duplicates(),
                    history@.len() <= pair_bound(rows),
                    forall|q: int| 0 <= q < history@.len() ==> valid_pos(rows, (#[trigger] history@[q]).0)
                        && valid_pos(rows, history@[q].1),
                    d0@ == old(d0)@,
                    d1@ == old(d1)@,
                    walkers_ok(ws, p0, p1, d0@, d1@),
                    p0.1 == ws[p0.0 - 1].len(),
                    walk_is_code(rows, p0, p1, h_old, fuel) == restarts_are_code(rows, p1, h_old.push(key), (fuel - 1) as nat, 1),
                    fuel >= 1,
                    fuel == pair_bound(rows) - h_old.len(),
                    restarts_are_code(rows, p1, h_old.push(key), (fuel - 1) as nat, 1) == (is_code && restarts_are_code(
                        rows,
                        p1,
                        h_old.push(key),
                        (fuel - 1) as nat,
                        c as int,
                    )),
                    !is_code ==> exists|s: Seq<char>| #[trigger] is_ambiguous(ws, s),
                    find_all ==> (is_code <==> found@.len() == old(found)@.len()),
                    !find_all ==> found@ == old(found)@ && is_code,
                    found@.len() >= old(found)@.len(),
                    forall|q: int| 0 <= q < old(found)@.len() ==> #[trigger] found@[q] == old(found)@[q],
                    forall|q: int| old(found)@.len() <= q < found@.len() ==> is_ambiguous(ws, (#[trigger] found@[q])@),
                decreases n - c,
            {
                let ghost found_before = found@;
                d0.push(p0.0 - 1);
                proof {
                    lemma_flat_push(ws, old(d0)@, (p0.0 - 1) as usize);
                    assert(ws[p0.0 - 1].subrange(0, p0.1 as int) =~= ws[p0.0 - 1]);
                    assert(ws[c - 1].subrange(0, 0) =~= Seq::<char>::empty());
                    assert(flat(ws, d0@) + ws[c - 1].subrange(0, 0) =~= flat(ws, d0@));
                    assert(walkers_ok(ws, (c, 0usize), p1, d0@, d1@));
                }
                let r = self.reg_is_code((c, 0), p1, history, d0, d1, find_all, found);
                assert(restarts_are_code(rows, p1, h_old.push(key), (fuel - 1) as nat, c as int) == (r && restarts_are_code(
                    rows,
                    p1,
                    h_old.push(key),
                    (fuel - 1) as nat,
                    c + 1,
                )));
                d0.pop();
                assert(d0@ =~= old(d0)@);
                assert forall|q: int| 0 <= q < old(found)@.len() implies #[trigger] found@[q] == old(found)@[q] by {
                    assert(found_before[q] == old(found)@[q]);
                }
                assert forall|q: int| old(found)@.len() <= q < found@.len() implies is_ambiguous(ws, (#[trigger] found@[q])@) by {
                    if q < found_before.len() {
                        assert(found@[q] == found_before[q]);
                    }
                }
                if !r {
                    if !find_all {
                        history.pop();
                        assert(history@ =~= h_old);
                        return false;
                    }
                    is_code = false;
                }
                c += 1;
            }
            history.pop();
            assert(history@ =~= h_old);
            return is_code;
        }
        if (p1.0 == 0 && p1.1 == 0) || len1 - 1 == p1.1 {
            assert(!at_boundary(rows, p0));
            assert(at_boundary(rows, p1));
            assert(walk_is_code(rows, p0, p1, h_old, fuel) == restarts_are_code(rows, p0, h_old.push(key), (fuel - 1) as nat, 1));
            let mut is_code = true;
            let mut c: usize = 1;
            while c < n
                invariant
                    self.wf(),
                    ws == self.ws(),
                    rows == self.rows(),
                    n == rows.len(),
                    1 <= c <= n,
                    history@ == h_old.push(key),
                    h_old == old(history)@,
                    history@.no_duplicates(),
                    history@.len() <= pair_bound(rows),
                    forall|q: int| 0 <= q < history@.len() ==> valid_pos(rows, (#[trigger] history@[q]).0)
                        && valid_pos(rows, history@[q].1),
                    d0@ == old(d0)@,
                    d1@ == old(d1)@,
                    walkers_ok(ws, p0, p1, d0@, d1@),
                    p1.1 == ws[p1.0 - 1].len(),
                    walk_is_code(rows, p0, p1, h_old, fuel) == restarts_are_code(rows, p0, h_old.push(key), (fuel - 1) as nat, 1),
                    fuel >= 1,
                    fuel == pair_bound(rows) - h_old.len(),
                    restarts_are_code(rows, p0, h_old.push(key), (fuel - 1) as nat, 1) == (is_code && restarts_are_code(
                        rows,
                        p0,
                        h_old.push(key),
                        (fuel - 1) as nat,
                        c as int,
                    )),
                    !is_code ==> exists|s: Seq<char>| #[trigger] is_ambiguous(ws, s),
                    find_all ==> (is_code <==> found@.len() == old(found)@.len()),
                    !find_all ==> found@ == old(found)@ && is_code,
                    found@.len() >= old(found)@.len(),
                    forall|q: int| 0 <= q < old(found)@.len() ==> #[trigger] found@[q] == old(found)@[q],
                    forall|q: int| old(found)@.len() <= q < found@.len() ==> is_ambiguous(ws, (#[trigger] found@[q])@),
                decreases n - c,
            {
                let ghost found_before = found@;
                d1.push(p1.0 - 1);
                proof {
                    lemma_flat_push(ws, old(d1)@, (p1.0 - 1) as usize);
                    assert(ws[p1.0 - 1].subrange(0, p1.1 as int) =~= ws[p1.0 - 1]);
                    assert(ws[c - 1].subrange(0, 0) =~= Seq::<char>::empty());
                    assert(flat(ws, d1@) + ws[c - 1].subrange(0, 0) =~= flat(ws, d1@));
                    assert(walkers_ok(ws, (c, 0usize), p0, d1@, d0@));
                }
                let r = self.reg_is_code((c, 0), p0, history, d1, d0, find_all, found);
                assert(restarts_are_code(rows, p0, h_old.push(key), (fuel - 1) as nat, c as int) == (r && restarts_are_code(
                    rows,
                    p0,
                    h_old.push(key),
                    (fuel - 1) as nat,
                    c + 1,
                )));
                d1.pop();
                assert(d1@ =~= old(d1)@);
                assert forall|q: int| 0 <= q < old(found)@.len() implies #[trigger] found@[q] == old(found)@[q] by {
                    assert(found_before[q] == old(found)@[q]);
                }
                assert forall|q: int| old(found)@.len() <= q < found@.len() implies is_ambiguous(ws, (#[trigger] found@[q])@) by {
                    if q < found_before.len() {
                        assert(found@[q] == found_before[q]);
                    }
                }
                if !r {
                    if !find_all {
                        history.pop();
                        assert(history@ =~= h_old);
                        return false;
                    }
                    is_code = false;
                }
                c += 1;
            }
            history.pop();
            assert(history@ =~= h_old);
            return is_code;
        }
        let a = (p0.0, p0.1 + 1);
        let b = (p1.0, p1.1 + 1);
        let sa = self.e[a.0][a.1];
        let sb = self.e[b.0][b.1];
        assert(sa == ws[p0.0 - 1][p0.1 as int]);
        assert(sb == ws[p1.0 - 1][p1.1 as int]);
        if sa == sb {
            proof {
                assert(ws[p0.0 - 1].subrange(0, a.1 as int) =~= ws[p0.0 - 1].subrange(0, p0.1 as int).push(sa));
                assert(ws[p1.0 - 1].subrange(0, b.1 as int) =~= ws[p1.0 - 1].subrange(0, p1.1 as int).push(sb));
                assert(flat(ws, d0@) + ws[p0.0 - 1].subrange(0, a.1 as int) =~= (flat(ws, d0@) + ws[p0.0 - 1].subrange(
                    0,
                    p0.1 as int,
                )).push(sa));
                assert(flat(ws, d1@) + ws[p1.0 - 1].subrange(0, b.1 as int) =~= (flat(ws, d1@) + ws[p1.0 - 1].subrange(
                    0,
                    p1.1 as int,
                )).push(sb));
                assert(walkers_ok(ws, a, b, d0@, d1@));
            }
            if len0 - 1 == a.1 && len1 - 1 == b.1 {
                proof {
                    let f1 = d0@.push((p0.0 - 1) as usize);
                    let f2 = d1@.push((p1.0 - 1) as usize);
                    lemma_flat_push(ws, d0@, (p0.0 - 1) as usize);
                    lemma_flat_push(ws, d1@, (p1.0 - 1) as usize);
                    assert(ws[p0.0 - 1].subrange(0, a.1 as int) =~= ws[p0.0 - 1]);
                    assert(ws[p1.0 - 1].subrange(0, b.1 as int) =~= ws[p1.0 - 1]);
                    assert(f1[0] == first_word(d0@, p0));
                    assert(f2[0] == first_word(d1@, p1));
                    assert(is_factorization(ws, f1));
                    assert(is_factorization(ws, f2));
                    assert(is_ambiguous(ws, flat(ws, f1)));
                }
                if find_all {
                    d0.push(p0.0 - 1);
                    let s = self.join_words(d0);
                    d0.pop();
                    assert(d0@ =~= old(d0)@);
                    found.push(s);
                    assert(found@[found@.len() - 1] == s);
                }
                history.pop();
                assert(history@ =~= h_old);
                return false;
            }
            let r = self.reg_is_code(a, b, history, d0, d1, find_all, found);
            history.pop();
            assert(history@ =~= h_old);
            return r;
        }
        history.pop();
        assert(history@ =~= h_old);
        true
    }
}


impl CodeGraph {
    /// Walks every pair of different words side by side from their starts.
    fn start_reg_is_code(&self, find_all: bool, found: &mut Vec<String>) -> (r: bool)
        requires
            self.wf(),
            old(found)@.len() == 0,
        ensures
            r == pairs_are_code(self.rows(), 1, 2),
            !r ==> exists|s: Seq<char>| #[trigger] is_ambiguous(self.ws(), s),
            find_all ==> (r <==> final(found)@.len() == 0),
            !find_all ==> final(found)@.len() == 0,
            forall|k: int| 0 <= k < final(found)@.len() ==> is_ambiguous(self.ws(), (#[trigger] final(found)@[k])@),
    {
        let ghost ws = self.ws();
        let ghost rows = self.rows();
        assert(rows.len() == ws.len() + 1);
        let n = self.e.len();
        let mut is_code = true;
        let mut i: usize = 1;
        while i < n - 1
            invariant
                self.wf(),
                ws == self.ws(),
                rows == self.rows(),
                n == rows.len(),
                1 <= i,
                pairs_are_code(rows, 1, 2) == (is_code && pairs_are_code(rows, i as int, i + 1)),
                !is_code ==> exists|s: Seq<char>| #[trigger] is_ambiguous(ws, s),
                find_all ==> (is_code <==> found@.len() == 0),
                !find_all ==> found@.len() == 0 && is_code,
                forall|q: int| 0 <= q < found@.len() ==> is_ambiguous(ws, (#[trigger] found@[q])@),
            decreases n - i,
        {
            let mut j: usize = i + 1;
            while j < n
                invariant
                    self.wf(),
                    ws == self.ws(),
                    rows == self.rows(),
                    n == rows.len(),
                    1 <= i < j,
                    i < n - 1,
                    j <= n,
                    pairs_are_code(rows, 1, 2) == (is_code && pairs_are_code(rows, i as int, j as int)),
                    !is_code ==> exists|s: Seq<char>| #[trigger] is_ambiguous(ws, s),
                    find_all ==> (is_code <==> found@.len() == 0),
                    !find_all ==> found@.len() == 0 && is_code,
                    forall|q: int| 0 <= q < found@.len() ==> is_ambiguous(ws, (#[trigger] found@[q])@),
                decreases n - j,
            {
                let mut history: Vec<PosPair> = Vec::new();
                let mut d0: Vec<usize> = Vec::new();
                let mut d1: Vec<usize> = Vec::new();
                proof {
                    assert(ws[i - 1] != ws[j - 1]);
                    assert(ws[i - 1].subrange(0, 0) =~= Seq::<char>::empty());
                    assert(ws[j - 1].subrange(0, 0) =~= Seq::<char>::empty());
                    assert(flat(ws, d0@) =~= Seq::<char>::empty());
                    assert(walkers_ok(ws, (i, 0usize), (j, 0usize), d0@, d1@));
                }
                let ghost found_before = found@;
                let r = self.reg_is_code((i, 0), (j, 0), &mut history, &mut d0, &mut d1, find_all, found);
                assert(pairs_are_code(rows, i as int, j as int) == (r && pairs_are_code(rows, i as int, j + 1)));
                assert forall|q: int| 0 <= q < found@.len() implies is_ambiguous(ws, (#[trigger] found@[q])@) by {
                    if q < found_before.len() {
                        assert(found@[q] == found_before[q]);
                    }
                }
                if !r {
                    if !find_all {
                        return false;
                    }
                    is_code = false;
                }
                j += 1;
            }
            assert(pairs_are_code(rows, i as int, j as int) == pairs_are_code(rows, i + 1, i + 2));
            i += 1;
        }
        is_code
    }

    /// Whether the words form a code. A `false` comes with a sequence that has two
    /// decompositions into the words.
    pub fn is_code(&self) -> (r: bool)
        requires
            self.wf(),
        ensures
            r == walks_decide_code(self.rows()),
            !r ==> exists|s: Seq<char>| #[trigger] is_ambiguous(self.ws(), s),
    {
        let mut found: Vec<String> = Vec::new();
        self.start_reg_is_code(false, &mut found)
    }

    /// Whether the words form a code, and every sequence found with two decompositions that
    /// start with different words; the list is empty exactly when the words form a code.
    pub fn all_ambiguous_sequences(&self) -> (r: (bool, Vec<String>))
        requires
            self.wf(),
        ensures
            r.0 == walks_decide_code(self.rows()),
            r.0 == (r.1@.len() == 0),
            forall|k: int| 0 <= k < r.1@.len() ==> is_ambiguous(self.ws(), (#[trigger] r.1@[k])@),
    {
        let mut found: Vec<String> = Vec::new();
        let res = self.start_reg_is_code(true, &mut found);
        (res, found)
    }
}

} // verus!
