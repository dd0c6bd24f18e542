use vstd::prelude::*;
use vstd::string::*;
use vstd::arithmetic::power::*;

verus! {

/// Failures when building a vertex.
#[derive(Debug, PartialEq, Eq, Structural)]
pub enum GraphElementsErr {
    /// A symbol of the label is not in the alphabet.
    NotInAlphabet,
    /// The index of the label does not fit in 64 bits.
    IndexOverflow,
}

impl GraphElementsErr {
    /// A short message that names the failure.
    pub fn to_string(&self) -> (r: String)
        ensures
            *self == GraphElementsErr::NotInAlphabet ==> r@ == "Wrong word nod in alphabet!"@,
            *self == GraphElementsErr::IndexOverflow ==> r@ == "Index out of range!"@,
    {
        match self {
            GraphElementsErr::NotInAlphabet => String::from_str("Wrong word nod in alphabet!"),
            GraphElementsErr::IndexOverflow => String::from_str("Index out of range!"),
        }
    }
}

/// The position of the first `c` in `a`, or -1 when `a` has none.
pub open spec fn first_pos(a: Seq<char>, c: char) -> int
    decreases a.len(),
{
    if a.len() == 0 {
        -1
    } else if a[0] == c {
        0
    } else {
        let r = first_pos(a.drop_first(), c);
        if r < 0 {
            -1
        } else {
            r + 1
        }
    }
}

/// Every symbol of `label` is in `a`.
pub open spec fn in_alphabet(label: Seq<char>, a: Seq<char>) -> bool {
    forall|i: int| 0 <= i < label.len() ==> a.contains(#[trigger] label[i])
}

/// The digit of the `k`-th symbol of `label`: its 1-based position in `a`.
pub open spec fn digit(label: Seq<char>, a: Seq<char>, k: int) -> int {
    first_pos(a, label[k]) + 1
}

/// The value of the first `k` symbols of `label` read as a number in base `|a| + 1`,
/// least significant digit first.
pub open spec fn index_prefix(label: Seq<char>, a: Seq<char>, k: nat) -> int
    decreases k,
{
    if k == 0 {
        0
    } else {
        index_prefix(label, a, (k - 1) as nat) + digit(label, a, k - 1) * pow(a.len() as int + 1, (k - 1) as nat)
    }
}

/// The index of a vertex labelled `label` over the alphabet `a`.
pub open spec fn label_index(label: Seq<char>, a: Seq<char>) -> int {
    index_prefix(label, a, label.len())
}

proof fn lemma_first_pos(a: Seq<char>, c: char, i: int)
    requires
        0 <= i <= a.len(),
        forall|k: int| 0 <= k < i ==> a[k] != c,
    ensures
        i < a.len() && a[i] == c ==> first_pos(a, c) == i,
        i == a.len() ==> first_pos(a, c) == -1,
    decreases i,
{
    if i > 0 {
        lemma_first_pos(a.drop_first(), c, i - 1);
    }
}

proof fn lemma_first_pos_range(a: Seq<char>, c: char)
    ensures
        -1 <= first_pos(a, c) < a.len(),
        a.contains(c) ==> 0 <= first_pos(a, c),
    decreases a.len(),
{
    if a.len() > 0 {
        lemma_first_pos_range(a.drop_first(), c);
        if a.contains(c) && a[0] != c {
            let k = choose|k: int| 0 <= k < a.len() && a[k] == c;
            assert(a.drop_first()[k - 1] == c);
        }
    }
}

proof fn lemma_index_prefix_grows(label: Seq<char>, a: Seq<char>, j: nat, m: nat)
    requires
        j <= m <= label.len(),
    ensures
        index_prefix(label, a, j) <= index_prefix(label, a, m),
        j < m ==> index_prefix(label, a, j + 1) <= index_prefix(label, a, m),
    decreases m,
{
    if j < m {
        lemma_index_prefix_grows(label, a, j, (m - 1) as nat);
        lemma_first_pos_range(a, label[m - 1]);
        lemma_pow_positive(a.len() as int + 1, (m - 1) as nat);
        assert(digit(label, a, m - 1) * pow(a.len() as int + 1, (m - 1) as nat) >= 0) by (nonlinear_arith)
            requires
                digit(label, a, m - 1) >= 0,
                pow(a.len() as int + 1, (m - 1) as nat) > 0,
        ;
    }
}

/// The index of `label` over `alphabet`: its symbols' 1-based positions in `alphabet`, read as
/// a number in base `alphabet.len() + 1` with the first symbol least significant.
pub fn calculate_idx(label: &String, alphabet: &Vec<char>) -> (r: Result<u64, GraphElementsErr>)
    ensures
        !in_alphabet(label@, alphabet@) <==> r == Err::<u64, GraphElementsErr>(
            GraphElementsErr::NotInAlphabet,
        ),
        in_alphabet(label@, alphabet@) && label_index(label@, alphabet@) > u64::MAX <==> r == Err::<
            u64,
            GraphElementsErr,
        >(GraphElementsErr::IndexOverflow),
        r is Ok ==> r->Ok_0 == label_index(label@, alphabet@),
{
    let s = label.as_str();
    let n = s.unicode_len();
    let ghost l = label@;
    let ghost a = alphabet@;
    let mut digits: Vec<u64> = Vec::new();
    let mut k: usize = 0;
    while k < n
        invariant
            n == l.len(),
            l == label@,
            s@ == l,
            a == alphabet@,
            0 <= k <= n,
            digits.len() == k,
            forall|m: int| 0 <= m < k ==> a.contains(#[trigger] l[m]),
            forall|m: int| 0 <= m < k ==> #[trigger] digits@[m] == digit(l, a, m),
            forall|m: int| 0 <= m < k ==> 1 <= #[trigger] digits@[m] <= a.len(),
        decreases n - k,
    {
        let c = s.get_char(k);
        let mut p: usize = 0;
        while p < alphabet.len() && alphabet[p] != c
            invariant
                a == alphabet@,
                c == l[k as int],
                0 <= k < n,
                n == l.len(),
                0 <= p <= a.len(),
                forall|q: int| 0 <= q < p ==> a[q] != c,
            decreases a.len() - p,
        {
            p += 1;
        }
        proof {
            lemma_first_pos(a, c, p as int);
        }
        if p == alphabet.len() {
            assert(!a.contains(c)) by {
                if a.contains(c) {
                    let q = choose|q: int| 0 <= q < a.len() && a[q] == c;
                }
            }
            assert(!in_alphabet(l, a)) by {
                assert(l[k as int] == c);
            }
            return Err(GraphElementsErr::NotInAlphabet);
        }
        assert(a[p as int] == c);
        digits.push((p + 1) as u64);
        k += 1;
    }
    let ghost big_b: int = a.len() as int + 1;
    let base = (alphabet.len() as u64).checked_add(1);
    let mut index: u64 = 0;
    let mut pos: u64 = 1;
    let mut j: usize = 0;
    proof {
        lemma_pow0(big_b);
    }
    while j < n
        invariant
            n == l.len(),
            l == label@,
            a == alphabet@,
            big_b == a.len() + 1,
            base is Some ==> base->Some_0 == big_b,
            base is None ==> big_b > u64::MAX,
            digits.len() == n,
            forall|m: int| 0 <= m < n ==> #[trigger] digits@[m] == digit(l, a, m),
            forall|m: int| 0 <= m < n ==> 1 <= #[trigger] digits@[m] <= a.len(),
            in_alphabet(l, a),
            0 <= j <= n,
            index == index_prefix(l, a, j as nat),
            j < n ==> pos == pow(big_b, j as nat),
        decreases n - j,
    {
        proof {
            lemma_index_prefix_grows(l, a, j as nat, n as nat);
            lemma_pow_positive(big_b, j as nat);
            assert(index_prefix(l, a, (j + 1) as nat) == index_prefix(l, a, j as nat) + digit(l, a, j as int)
                * pow(big_b, j as nat));
            assert(digits@[j as int] >= 1);
            assert(digit(l, a, j as int) * pow(big_b, j as nat) >= 0) by (nonlinear_arith)
                requires
                    digit(l, a, j as int) >= 1,
                    pow(big_b, j as nat) > 0,
            ;
        }
        let term = match digits[j].checked_mul(pos) {
            Some(t) => t,
            None => {
                return Err(GraphElementsErr::IndexOverflow);
            },
        };
        index = match index.checked_add(term) {
            Some(x) => x,
            None => {
                return Err(GraphElementsErr::IndexOverflow);
            },
        };
        if j + 1 < n {
            proof {
                lemma_index_prefix_grows(l, a, (j + 1) as nat, n as nat);
                assert(index_prefix(l, a, (j + 2) as nat) == index_prefix(l, a, (j + 1) as nat) + digit(
                    l,
                    a,
                    j + 1,
                ) * pow(big_b, (j + 1) as nat));
                assert(digits@[j + 1] >= 1);
                assert(index_prefix(l, a, (j + 1) as nat) >= 0) by {
                    lemma_index_prefix_grows(l, a, 0, (j + 1) as nat);
                }
                lemma_pow_positive(big_b, (j + 1) as nat);
                assert(digit(l, a, j + 1) * pow(big_b, (j + 1) as nat) >= pow(big_b, (j + 1) as nat))
                    by (nonlinear_arith)
                    requires
                        digit(l, a, j + 1) >= 1,
                        pow(big_b, (j + 1) as nat) > 0,
                ;
                reveal(pow);
                assert(pow(big_b, (j + 1) as nat) == big_b * pow(big_b, j as nat));
                assert(big_b * pow(big_b, j as nat) >= big_b) by (nonlinear_arith)
                    requires
                        big_b >= 1,
                        pow(big_b, j as nat) >= 1,
                ;
            }
            pos = match base {
                Some(b) => match pos.checked_mul(b) {
                    Some(x) => x,
                    None => {
                        return Err(GraphElementsErr::IndexOverflow);
                    },
                },
                None => {
                    return Err(GraphElementsErr::IndexOverflow);
                },
            };
        }
        j += 1;
    }
    Ok(index)
}

/// A vertex of the split graph: a label and the index that identifies and orders it.
#[derive(Debug, Clone)]
pub struct Vertex {
    /// The label: a prefix or suffix of a word.
    pub label: String,
    /// The label read as a number over the graph's alphabet.
    pub index: u64,
}

impl Vertex {
    /// A vertex for `label` over `alphabet`.
    ///
    /// Fails with `NotInAlphabet` where a symbol of the label is not in the alphabet, and with
    /// `IndexOverflow` where the index does not fit in 64 bits.
    pub fn new(label: String, alphabet: &Vec<char>) -> (r: Result<Vertex, GraphElementsErr>)
        ensures
            !in_alphabet(label@, alphabet@) <==> r == Err::<Vertex, GraphElementsErr>(
                GraphElementsErr::NotInAlphabet,
            ),
            in_alphabet(label@, alphabet@) && label_index(label@, alphabet@) > u64::MAX <==> r == Err::<
                Vertex,
                GraphElementsErr,
            >(GraphElementsErr::IndexOverflow),
            r is Ok ==> r->Ok_0.label@ == label@ && r->Ok_0.index == label_index(label@, alphabet@),
    {
        match calculate_idx(&label, alphabet) {
            Ok(index) => Ok(Vertex { label, index }),
            Err(e) => Err(e),
        }
    }

    /// A copy of this vertex.
    pub fn duplicate(&self) -> (r: Vertex)
        ensures
            r.label@ == self.label@,
            r.index == self.index,
    {
        Vertex { label: self.label.clone(), index: self.index }
    }
}

/// Vertices are equal when their indices are.
impl PartialEq for Vertex {
    fn eq(&self, other: &Vertex) -> (r: bool) {
        self.index == other.index
    }
}

impl vstd::std_specs::cmp::PartialEqSpecImpl for Vertex {
    open spec fn obeys_eq_spec() -> bool {
        true
    }

    open spec fn eq_spec(&self, other: &Vertex) -> bool {
        self.index == other.index
    }
}

/// An edge of the split graph, from a prefix to the suffix that completes a word.
#[derive(Debug, Clone)]
pub struct Edge {
    /// The origin: the prefix.
    pub from: Vertex,
    /// The target: the suffix.
    pub to: Vertex,
    /// The word: the origin's label followed by the target's.
    pub label: String,
}

impl Edge {
    /// The edge from `v1` to `v2`, labelled with their labels joined.
    pub fn new(v1: Vertex, v2: Vertex) -> (r: Edge)
        ensures
            r.from.label@ == v1.label@,
            r.from.index == v1.index,
            r.to.label@ == v2.label@,
            r.to.index == v2.index,
            r.label@ == v1.label@ + v2.label@,
    {
        let mut w = String::from_str(v1.label.as_str());
        w.append(v2.label.as_str());
        Edge { from: v1, to: v2, label: w }
    }

    /// A copy of this edge.
    pub fn duplicate(&self) -> (r: Edge)
        ensures
            r.from.label@ == self.from.label@,
            r.from.index == self.from.index,
            r.to.label@ == self.to.label@,
            r.to.index == self.to.index,
            r.label@ == self.label@,
    {
        Edge { from: self.from.duplicate(), to: self.to.duplicate(), label: self.label.clone() }
    }
}

/// Edges are equal when their endpoints' indices are.
impl PartialEq for Edge {
    fn eq(&self, other: &Edge) -> (r: bool) {
        self.to.index == other.to.index && self.from.index == other.from.index
    }
}

impl vstd::std_specs::cmp::PartialEqSpecImpl for Edge {
    open spec fn obeys_eq_spec() -> bool {
        true
    }

    open spec fn eq_spec(&self, other: &Edge) -> bool {
        self.to.index == other.to.index && self.from.index == other.from.index
    }
}

} // verus!
