//! The constraint algebra: expansion of syntactic constraints into
//! normalized sets of chains, and the subsumption check over them.

use vstd::prelude::*;
use crate::ast::{Constraint, ConstraintV};

verus! {

/// An indivisible constraint element: a named type, or a variable
/// (a name carrying the leading sigil `'`).
#[derive(Debug, PartialEq, Eq)]
pub enum Atom {
    Type(String),
    Variable(String),
}

/// The mathematical shape of an [`Atom`].
pub enum AtomV {
    Type(Seq<char>),
    Variable(Seq<char>),
}

impl View for Atom {
    type V = AtomV;

    open spec fn view(&self) -> AtomV {
        match self {
            Atom::Type(s) => AtomV::Type(s@),
            Atom::Variable(s) => AtomV::Variable(s@),
        }
    }
}

impl DeepView for Atom {
    type V = AtomV;

    open spec fn deep_view(&self) -> AtomV {
        self@
    }
}

impl Clone for Atom {
    fn clone(&self) -> (r: Atom)
        ensures
            r == *self,
    {
        match self {
            Atom::Type(s) => Atom::Type(s.clone()),
            Atom::Variable(s) => Atom::Variable(s.clone()),
        }
    }
}

/// The normalized form of a constraint: a duplicate-free collection of
/// chains, each chain an ordered duplicate-free sequence of atoms
/// standing for one conjunction.
pub type ConstraintSet = Vec<Vec<Atom>>;

/// How a bare name reads as an atom: the leading sigil marks a variable.
pub open spec fn atom_of_name(n: Seq<char>) -> AtomV {
    if n.len() > 0 && n[0] == '\'' {
        AtomV::Variable(n)
    } else {
        AtomV::Type(n)
    }
}

/// Strict lexicographic order on character sequences, by code point.
pub open spec fn lex_lt(a: Seq<char>, b: Seq<char>) -> bool
    decreases a.len(),
{
    if b.len() == 0 {
        false
    } else if a.len() == 0 {
        true
    } else if a[0] as u32 != b[0] as u32 {
        (a[0] as u32) < (b[0] as u32)
    } else {
        lex_lt(a.drop_first(), b.drop_first())
    }
}

/// The total order on atoms: types sort before variables, like-shaped
/// atoms by name.
pub open spec fn atom_lt(a: AtomV, b: AtomV) -> bool {
    match (a, b) {
        (AtomV::Type(x), AtomV::Type(y)) => lex_lt(x, y),
        (AtomV::Type(_), AtomV::Variable(_)) => true,
        (AtomV::Variable(_), AtomV::Type(_)) => false,
        (AtomV::Variable(x), AtomV::Variable(y)) => lex_lt(x, y),
    }
}

/// A chain is well formed when it is strictly sorted by the atom order,
/// which also makes it duplicate-free.
pub open spec fn chain_wf(ch: Seq<AtomV>) -> bool {
    forall|i: int, j: int| 0 <= i < j < ch.len() ==> atom_lt(ch[i], ch[j])
}

/// A constraint set is well formed when every chain is well formed and
/// no chain occurs twice.
pub open spec fn cset_wf(cs: Seq<Seq<AtomV>>) -> bool {
    &&& forall|i: int| 0 <= i < cs.len() ==> chain_wf(#[trigger] cs[i])
    &&& forall|i: int, j: int| 0 <= i < j < cs.len() ==> cs[i] != cs[j]
}

/// The collection of chains denoted by a normalized constraint set, each
/// chain read as the set of its atoms.
pub open spec fn csem(cs: Seq<Seq<AtomV>>) -> Set<Set<AtomV>> {
    Set::new(|s: Set<AtomV>| exists|i: int| 0 <= i < cs.len() && s == (#[trigger] cs[i]).to_set())
}

/// An instance whose properties are `chain` satisfies a requirement
/// denoted by `req` when some chain of the requirement is a subset of
/// `chain`.  This is the subsumption relation of the algebra.
pub open spec fn set_matches(chain: Set<AtomV>, req: Set<Set<AtomV>>) -> bool {
    exists|t: Set<AtomV>| req.contains(t) && t.subset_of(chain)
}

/// All unions of one chain from `s1` with one chain from `s2`: the
/// denotation of an intersection of two alternatives.
pub open spec fn pair_unions(s1: Set<Set<AtomV>>, s2: Set<Set<AtomV>>) -> Set<Set<AtomV>> {
    Set::new(
        |u: Set<AtomV>|
            exists|x: Set<AtomV>, y: Set<AtomV>|
                s1.contains(x) && s2.contains(y) && u == x.union(y),
    )
}

/// The denotation of a constraint: the set of atom-sets (chains) it
/// stands for.  `expand` computes exactly this set, in normalized form.
pub open spec fn sem(c: ConstraintV) -> Set<Set<AtomV>>
    decreases c, 1int, 0int,
{
    match c {
        ConstraintV::Atom(name) => set![set![atom_of_name(name)]],
        ConstraintV::Addition(cs) => sem_addition(cs, cs.len() as int),
        ConstraintV::Union(cs) => sem_union(cs, cs.len() as int),
        ConstraintV::Subtraction(lhs, rhs) => {
            let keep = sem(*lhs);
            let gone = sem(*rhs);
            keep.difference(Set::new(|s: Set<AtomV>| set_matches(s, gone)))
        },
    }
}

/// The denotation of the intersection of the first `n` constraints of
/// `cs`, folded left from the trivially-true set.
pub open spec fn sem_addition(cs: Seq<ConstraintV>, n: int) -> Set<Set<AtomV>>
    decreases cs, 0int, n,
{
    if n <= 0 || n > cs.len() {
        set![Set::empty()]
    } else {
        pair_unions(sem_addition(cs, n - 1), sem(cs[n - 1]))
    }
}

/// The denotation of the alternation of the first `n` constraints of
/// `cs`.
pub open spec fn sem_union(cs: Seq<ConstraintV>, n: int) -> Set<Set<AtomV>>
    decreases cs, 0int, n,
{
    if n <= 0 || n > cs.len() {
        Set::empty()
    } else {
        sem_union(cs, n - 1).union(sem(cs[n - 1]))
    }
}

/// The lexicographic order is irreflexive.
pub proof fn lemma_lex_irrefl(a: Seq<char>)
    ensures
        !lex_lt(a, a),
    decreases a.len(),
{
    if a.len() > 0 {
        lemma_lex_irrefl(a.drop_first());
    }
}

/// Of two distinct sequences, one is lexicographically below the other,
/// and never both.
pub proof fn lemma_lex_total(a: Seq<char>, b: Seq<char>)
    ensures
        a != b ==> (lex_lt(a, b) || lex_lt(b, a)),
        lex_lt(a, b) ==> !lex_lt(b, a),
    decreases a.len(),
{
    if a.len() == 0 && b.len() == 0 {
        assert(a =~= b);
    }
    if a.len() > 0 && b.len() > 0 && a[0] as u32 == b[0] as u32 {
        vstd::utf8::char_u32_cast(a[0], a[0] as u32);
        vstd::utf8::char_u32_cast(b[0], b[0] as u32);
        assert(a[0] == b[0]);
        lemma_lex_total(a.drop_first(), b.drop_first());
        if a.drop_first() == b.drop_first() {
            assert forall|i: int| 0 <= i < a.len() implies a[i] == b[i] by {
                if i > 0 {
                    assert(a[i] == a.drop_first()[i - 1]);
                }
            }
            assert(a =~= b);
        }
    }
}

/// The lexicographic order is transitive.
pub proof fn lemma_lex_trans(a: Seq<char>, b: Seq<char>, c: Seq<char>)
    requires
        lex_lt(a, b),
        lex_lt(b, c),
    ensures
        lex_lt(a, c),
    decreases a.len(),
{
    if a.len() > 0 && b.len() > 0 && c.len() > 0 && a[0] as u32 == b[0] as u32 && b[0] as u32
        == c[0] as u32 {
        lemma_lex_trans(a.drop_first(), b.drop_first(), c.drop_first());
    }
}

/// The atom order is a strict total order.
pub proof fn lemma_atom_order(a: AtomV, b: AtomV, c: AtomV)
    ensures
        !atom_lt(a, a),
        a != b ==> (atom_lt(a, b) || atom_lt(b, a)),
        atom_lt(a, b) ==> !atom_lt(b, a),
        atom_lt(a, b) && atom_lt(b, c) ==> atom_lt(a, c),
{
    lemma_lex_irrefl(name_of(a));
    lemma_lex_total(name_of(a), name_of(b));
    if atom_lt(a, b) && atom_lt(b, c) {
        match (a, b, c) {
            (AtomV::Type(x), AtomV::Type(y), AtomV::Type(z)) => lemma_lex_trans(x, y, z),
            (AtomV::Variable(x), AtomV::Variable(y), AtomV::Variable(z)) => lemma_lex_trans(
                x,
                y,
                z,
            ),
            _ => {},
        }
    }
}

/// The bare name an atom carries.
pub open spec fn name_of(a: AtomV) -> Seq<char> {
    match a {
        AtomV::Type(s) => s,
        AtomV::Variable(s) => s,
    }
}

/// Where two sequences agree on a prefix and then differ, the
/// lexicographic order is decided by the first differing position.
proof fn lemma_lex_at(a: Seq<char>, b: Seq<char>, i: int)
    requires
        0 <= i < a.len(),
        i < b.len(),
        forall|k: int| 0 <= k < i ==> a[k] as u32 == b[k] as u32,
        a[i] as u32 != b[i] as u32,
    ensures
        lex_lt(a, b) == ((a[i] as u32) < (b[i] as u32)),
    decreases i,
{
    if i > 0 {
        lemma_lex_at(a.drop_first(), b.drop_first(), i - 1);
    }
}

/// Where one sequence is a prefix of the other, the shorter comes first.
proof fn lemma_lex_prefix(a: Seq<char>, b: Seq<char>, i: int)
    requires
        0 <= i,
        i == a.len() || i == b.len(),
        i <= a.len(),
        i <= b.len(),
        forall|k: int| 0 <= k < i ==> a[k] as u32 == b[k] as u32,
    ensures
        lex_lt(a, b) == (a.len() < b.len()),
    decreases i,
{
    if i > 0 {
        lemma_lex_prefix(a.drop_first(), b.drop_first(), i - 1);
    }
}

/// Whether `a` sorts strictly before `b` in the lexicographic order.
fn str_lt(a: &str, b: &str) -> (r: bool)
    ensures
        r == lex_lt(a@, b@),
{
    let alen = a.unicode_len();
    let blen = b.unicode_len();
    let mut i: usize = 0;
    loop
        invariant
            i <= alen,
            i <= blen,
            alen == a@.len(),
            blen == b@.len(),
            forall|k: int| 0 <= k < i ==> a@[k] as u32 == b@[k] as u32,
        decreases alen - i,
    {
        if i >= alen || i >= blen {
            proof {
                lemma_lex_prefix(a@, b@, i as int);
            }
            return alen < blen;
        }
        let ca = a.get_char(i);
        let cb = b.get_char(i);
        if ca as u32 != cb as u32 {
            proof {
                lemma_lex_at(a@, b@, i as int);
            }
            return (ca as u32) < (cb as u32);
        }
        i = i + 1;
    }
}

/// Whether two character sequences are the same text.
pub(crate) fn str_eq(a: &str, b: &str) -> (r: bool)
    ensures
        r == (a@ == b@),
{
    let alen = a.unicode_len();
    let blen = b.unicode_len();
    if alen != blen {
        return false;
    }
    let mut i: usize = 0;
    while i < alen
        invariant
            i <= alen,
            alen == a@.len(),
            alen == b@.len(),
            forall|k: int| 0 <= k < i ==> a@[k] == b@[k],
        decreases alen - i,
    {
        if a.get_char(i) as u32 != b.get_char(i) as u32 {
            return false;
        }
        proof {
            vstd::utf8::char_u32_cast(a@[i as int], a@[i as int] as u32);
            vstd::utf8::char_u32_cast(b@[i as int], b@[i as int] as u32);
        }
        i = i + 1;
    }
    proof {
        assert(a@ =~= b@);
    }
    true
}

/// Whether atom `a` sorts strictly before atom `b` in the total order.
fn atom_before(a: &Atom, b: &Atom) -> (r: bool)
    ensures
        r == atom_lt(a@, b@),
{
    match (a, b) {
        (Atom::Type(x), Atom::Type(y)) => str_lt(x.as_str(), y.as_str()),
        (Atom::Type(_), Atom::Variable(_)) => true,
        (Atom::Variable(_), Atom::Type(_)) => false,
        (Atom::Variable(x), Atom::Variable(y)) => str_lt(x.as_str(), y.as_str()),
    }
}

/// Whether two atoms are the same atom.
fn atom_eq(a: &Atom, b: &Atom) -> (r: bool)
    ensures
        r == (a@ == b@),
{
    match (a, b) {
        (Atom::Type(x), Atom::Type(y)) => *x == *y,
        (Atom::Variable(x), Atom::Variable(y)) => *x == *y,
        _ => false,
    }
}

/// Taking one more element of a sequence grows its set by that element.
pub(crate) proof fn lemma_take_to_set<A>(s: Seq<A>, j: int)
    requires
        0 <= j < s.len(),
    ensures
        s.take(j + 1).to_set() == s.take(j).to_set().insert(s[j]),
{
    assert forall|x: A| s.take(j + 1).to_set().contains(x) implies s.take(j).to_set().insert(
        s[j],
    ).contains(x) by {
        let i = choose|i: int| 0 <= i < s.take(j + 1).len() && #[trigger] s.take(j + 1)[i] == x;
        if i < j {
            assert(s.take(j)[i] == x);
        }
    }
    assert forall|x: A| s.take(j).to_set().insert(s[j]).contains(x) implies s.take(
        j + 1,
    ).to_set().contains(x) by {
        if s.take(j).to_set().contains(x) {
            let i = choose|i: int| 0 <= i < s.take(j).len() && #[trigger] s.take(j)[i] == x;
            assert(s.take(j + 1)[i] == x);
        } else {
            assert(s.take(j + 1)[j] == x);
        }
    }
    assert(s.take(j + 1).to_set() =~= s.take(j).to_set().insert(s[j]));
}

/// An exact copy of a chain.
pub(crate) fn clone_chain(ch: &Vec<Atom>) -> (r: Vec<Atom>)
    ensures
        r@ == ch@,
{
    let mut r: Vec<Atom> = Vec::new();
    let mut i: usize = 0;
    while i < ch.len()
        invariant
            i <= ch.len(),
            r@ == ch@.take(i as int),
        decreases ch.len() - i,
    {
        r.push(ch[i].clone());
        assert(r@ =~= ch@.take(i as int + 1));
        i = i + 1;
    }
    assert(r@ =~= ch@);
    r
}

/// An exact copy of a normalized constraint set.
pub(crate) fn clone_cset(cs: &Vec<Vec<Atom>>) -> (r: Vec<Vec<Atom>>)
    ensures
        r.deep_view() == cs.deep_view(),
{
    let mut r: Vec<Vec<Atom>> = Vec::new();
    let mut i: usize = 0;
    while i < cs.len()
        invariant
            i <= cs.len(),
            r@.len() == i,
            r.deep_view() == cs.deep_view().take(i as int),
        decreases cs.len() - i,
    {
        let copied = clone_chain(&cs[i]);
        assert(copied.deep_view() == cs.deep_view()[i as int]);
        r.push(copied);
        assert(r.deep_view() =~= cs.deep_view().take(i as int + 1));
        i = i + 1;
    }
    assert(r.deep_view() =~= cs.deep_view());
    r
}

/// Inserts an atom into a sorted chain, keeping it sorted and
/// duplicate-free; inserting an atom the chain already holds changes
/// nothing.
pub(crate) fn insert_atom(ch: &mut Vec<Atom>, a: Atom)
    requires
        chain_wf(old(ch).deep_view()),
    ensures
        chain_wf(final(ch).deep_view()),
        final(ch).deep_view().to_set() == old(ch).deep_view().to_set().insert(a@),
{
    let ghost pre = ch.deep_view();
    let mut i: usize = 0;
    while i < ch.len() && atom_before(&ch[i], &a)
        invariant
            i <= ch.len(),
            pre == ch.deep_view(),
            chain_wf(pre),
            forall|k: int| 0 <= k < i ==> atom_lt(#[trigger] pre[k], a@),
        decreases ch.len() - i,
    {
        i = i + 1;
    }
    if i < ch.len() && atom_eq(&ch[i], &a) {
        // Already present: the set is unchanged.
        assert(pre.to_set().contains(a@)) by {
            assert(pre[i as int] == a@);
        }
        assert(pre.to_set() =~= pre.to_set().insert(a@));
        return ;
    }
    // Every atom at or past `i` sorts strictly after `a`.
    assert forall|k: int| i <= k < pre.len() implies atom_lt(a@, #[trigger] pre[k]) by {
        lemma_atom_order(a@, pre[i as int], pre[k]);
    }
    ch.insert(i, a);
    assert forall|k: int| 0 <= k < ch.deep_view().len() implies ch.deep_view()[k] == (if k < i {
        pre[k]
    } else if k == i {
        a@
    } else {
        pre[k - 1]
    }) by {}
    assert forall|p: int, q: int|
        0 <= p < q < ch.deep_view().len() implies atom_lt(
        ch.deep_view()[p],
        ch.deep_view()[q],
    ) by {
        lemma_atom_order(ch.deep_view()[p], ch.deep_view()[q], a@);
    }
    assert(ch.deep_view().to_set() =~= pre.to_set().insert(a@)) by {
        assert forall|x: AtomV| ch.deep_view().to_set().contains(x) implies pre.to_set().insert(
            a@,
        ).contains(x) by {
            let k = choose|k: int|
                0 <= k < ch.deep_view().len() && #[trigger] ch.deep_view()[k] == x;
            if k < i {
                assert(pre[k] == x);
            } else if k > i {
                assert(pre[k - 1] == x);
            }
        }
        assert forall|x: AtomV| pre.to_set().insert(a@).contains(x) implies
            ch.deep_view().to_set().contains(x) by {
            if pre.to_set().contains(x) {
                let k = choose|k: int| 0 <= k < pre.len() && #[trigger] pre[k] == x;
                if k < i {
                    assert(ch.deep_view()[k] == x);
                } else {
                    assert(ch.deep_view()[k + 1] == x);
                }
            } else {
                assert(ch.deep_view()[i as int] == x);
            }
        }
    }
}

/// Joins two sorted chains into one: the atoms of both, sorted, with
/// duplicates suppressed.
fn merge_chains(a: &Vec<Atom>, b: &Vec<Atom>) -> (r: Vec<Atom>)
    requires
        chain_wf(a.deep_view()),
        chain_wf(b.deep_view()),
    ensures
        chain_wf(r.deep_view()),
        r.deep_view().to_set() == a.deep_view().to_set().union(b.deep_view().to_set()),
{
    let mut r = clone_chain(a);
    assert(r.deep_view() =~= a.deep_view());
    let mut j: usize = 0;
    while j < b.len()
        invariant
            j <= b.len(),
            chain_wf(r.deep_view()),
            r.deep_view().to_set() == a.deep_view().to_set().union(
                b.deep_view().take(j as int).to_set(),
            ),
        decreases b.len() - j,
    {
        proof {
            lemma_take_to_set(b.deep_view(), j as int);
            assert(b.deep_view()[j as int] == b@[j as int]@);
        }
        insert_atom(&mut r, b[j].clone());
        assert(r.deep_view().to_set() =~= a.deep_view().to_set().union(
            b.deep_view().take(j as int + 1).to_set(),
        ));
        j = j + 1;
    }
    assert(b.deep_view().take(b@.len() as int) =~= b.deep_view());
    r
}

/// Whether two chains are equal, atom for atom.
fn chain_eq(a: &Vec<Atom>, b: &Vec<Atom>) -> (r: bool)
    ensures
        r == (a.deep_view() == b.deep_view()),
{
    if a.len() != b.len() {
        assert(a.deep_view().len() == a@.len() && b.deep_view().len() == b@.len());
        return false;
    }
    let mut i: usize = 0;
    while i < a.len()
        invariant
            i <= a.len(),
            a@.len() == b@.len(),
            forall|k: int| 0 <= k < i ==> a.deep_view()[k] == b.deep_view()[k],
        decreases a.len() - i,
    {
        if !atom_eq(&a[i], &b[i]) {
            assert(a.deep_view()[i as int] == a@[i as int]@);
            assert(b.deep_view()[i as int] == b@[i as int]@);
            return false;
        }
        assert(a.deep_view()[i as int] == b.deep_view()[i as int]);
        i = i + 1;
    }
    assert(a.deep_view() =~= b.deep_view());
    true
}

/// Whether the collection already holds this exact chain.
fn contains_chain(cs: &Vec<Vec<Atom>>, ch: &Vec<Atom>) -> (r: bool)
    ensures
        r == cs.deep_view().contains(ch.deep_view()),
{
    let mut i: usize = 0;
    while i < cs.len()
        invariant
            i <= cs.len(),
            forall|k: int| 0 <= k < i ==> #[trigger] cs.deep_view()[k] != ch.deep_view(),
        decreases cs.len() - i,
    {
        if chain_eq(&cs[i], ch) {
            assert(cs.deep_view()[i as int] == ch.deep_view());
            return true;
        }
        i = i + 1;
    }
    false
}

/// Adds a chain to a normalized collection unless it is already there.
pub(crate) fn push_chain(cs: &mut Vec<Vec<Atom>>, ch: Vec<Atom>)
    requires
        cset_wf(old(cs).deep_view()),
        chain_wf(ch.deep_view()),
    ensures
        cset_wf(final(cs).deep_view()),
        csem(final(cs).deep_view()) == csem(old(cs).deep_view()).insert(ch.deep_view().to_set()),
{
    let ghost pre = cs.deep_view();
    if contains_chain(cs, &ch) {
        assert(csem(pre) =~= csem(pre).insert(ch.deep_view().to_set())) by {
            let k = choose|k: int| 0 <= k < pre.len() && #[trigger] pre[k] == ch.deep_view();
            assert(csem(pre).contains(pre[k].to_set()));
        }
        return ;
    }
    cs.push(ch);
    assert forall|x: Set<AtomV>| csem(cs.deep_view()).contains(x) implies csem(pre).insert(
        ch.deep_view().to_set(),
    ).contains(x) by {
        let k = choose|k: int|
            0 <= k < cs.deep_view().len() && x == (#[trigger] cs.deep_view()[k]).to_set();
        if k < pre.len() {
            assert(x == pre[k].to_set());
        }
    }
    assert forall|x: Set<AtomV>|
        csem(pre).insert(ch.deep_view().to_set()).contains(x) implies csem(
        cs.deep_view(),
    ).contains(x) by {
        if csem(pre).contains(x) {
            let k = choose|k: int| 0 <= k < pre.len() && x == (#[trigger] pre[k]).to_set();
            assert(cs.deep_view()[k] == pre[k]);
            assert(x == cs.deep_view()[k].to_set());
        } else {
            assert(cs.deep_view()[pre.len() as int] == ch.deep_view());
            assert(x == cs.deep_view()[pre.len() as int].to_set());
        }
    }
    assert(csem(cs.deep_view()) =~= csem(pre).insert(ch.deep_view().to_set()));
    assert forall|p: int| 0 <= p < cs.deep_view().len() implies chain_wf(
        #[trigger] cs.deep_view()[p],
    ) by {
        if p < pre.len() {
            assert(cs.deep_view()[p] == pre[p]);
        } else {
            assert(cs.deep_view()[p] == ch.deep_view());
        }
    }
    assert forall|p: int, q: int|
        0 <= p < q < cs.deep_view().len() implies cs.deep_view()[p] != cs.deep_view()[q] by {
        if q < pre.len() {
            assert(cs.deep_view()[p] == pre[p] && cs.deep_view()[q] == pre[q]);
        } else {
            assert(cs.deep_view()[p] == pre[p]);
            assert(cs.deep_view()[q] == ch.deep_view());
        }
    }
}

/// The chains of one alternative intersected with every chain of `b`.
pub open spec fn row_unions(x: Set<AtomV>, b: Set<Set<AtomV>>) -> Set<Set<AtomV>> {
    Set::new(|u: Set<AtomV>| exists|y: Set<AtomV>| b.contains(y) && u == x.union(y))
}

/// Taking one more chain of a collection grows its denotation by that
/// chain's atom set.
pub(crate) proof fn lemma_csem_take(s: Seq<Seq<AtomV>>, j: int)
    requires
        0 <= j < s.len(),
    ensures
        csem(s.take(j + 1)) == csem(s.take(j)).insert(s[j].to_set()),
{
    assert forall|x: Set<AtomV>| csem(s.take(j + 1)).contains(x) implies csem(s.take(j)).insert(
        s[j].to_set(),
    ).contains(x) by {
        let k = choose|k: int|
            0 <= k < s.take(j + 1).len() && x == (#[trigger] s.take(j + 1)[k]).to_set();
        if k < j {
            assert(x == s.take(j)[k].to_set());
        }
    }
    assert forall|x: Set<AtomV>|
        csem(s.take(j)).insert(s[j].to_set()).contains(x) implies csem(s.take(j + 1)).contains(
        x,
    ) by {
        if csem(s.take(j)).contains(x) {
            let k = choose|k: int| 0 <= k < s.take(j).len() && x == (#[trigger] s.take(j)[k]).to_set();
            assert(x == s.take(j + 1)[k].to_set());
        } else {
            assert(x == s.take(j + 1)[j].to_set());
        }
    }
    assert(csem(s.take(j + 1)) =~= csem(s.take(j)).insert(s[j].to_set()));
}

/// Pairwise intersection distributes over adding one alternative on the
/// left.
proof fn lemma_pair_unions_insert(a: Set<Set<AtomV>>, x: Set<AtomV>, b: Set<Set<AtomV>>)
    ensures
        pair_unions(a.insert(x), b) == pair_unions(a, b).union(row_unions(x, b)),
{
    assert(pair_unions(a.insert(x), b) =~= pair_unions(a, b).union(row_unions(x, b)));
}

/// A row grows by one union when its second operand grows by one chain.
proof fn lemma_row_unions_insert(x: Set<AtomV>, b: Set<Set<AtomV>>, y: Set<AtomV>)
    ensures
        row_unions(x, b.insert(y)) == row_unions(x, b).insert(x.union(y)),
{
    assert(row_unions(x, b.insert(y)) =~= row_unions(x, b).insert(x.union(y)));
}

/// Whether a chain holds the given atom.
pub(crate) fn contains_atom(ch: &Vec<Atom>, a: &Atom) -> (r: bool)
    ensures
        r == ch.deep_view().to_set().contains(a@),
{
    let mut j: usize = 0;
    while j < ch.len()
        invariant
            j <= ch.len(),
            forall|k: int| 0 <= k < j ==> #[trigger] ch.deep_view()[k] != a@,
        decreases ch.len() - j,
    {
        if atom_eq(&ch[j], a) {
            assert(ch.deep_view()[j as int] == a@);
            return true;
        }
        j = j + 1;
    }
    assert(!ch.deep_view().to_set().contains(a@)) by {
        if ch.deep_view().contains(a@) {
            let k = choose|k: int|
                0 <= k < ch.deep_view().len() && #[trigger] ch.deep_view()[k] == a@;
        }
    }
    false
}

/// Whether every atom of `sub` occurs in `sup`.
fn is_subchain(sub: &Vec<Atom>, sup: &Vec<Atom>) -> (r: bool)
    ensures
        r == sub.deep_view().to_set().subset_of(sup.deep_view().to_set()),
{
    let mut i: usize = 0;
    while i < sub.len()
        invariant
            i <= sub.len(),
            forall|k: int|
                0 <= k < i ==> sup.deep_view().to_set().contains(#[trigger] sub.deep_view()[k]),
        decreases sub.len() - i,
    {
        if !contains_atom(sup, &sub[i]) {
            assert(sub.deep_view().to_set().contains(sub.deep_view()[i as int]));
            return false;
        }
        i = i + 1;
    }
    assert forall|x: AtomV| sub.deep_view().to_set().contains(x) implies
        sup.deep_view().to_set().contains(x) by {
        let k = choose|k: int|
            0 <= k < sub.deep_view().len() && #[trigger] sub.deep_view()[k] == x;
    }
    true
}

/// Whether a chain satisfies an already-normalized requirement: some
/// chain of the requirement is a subset of it.
fn matches_expanded(chain: &Vec<Atom>, req: &Vec<Vec<Atom>>) -> (r: bool)
    ensures
        r == set_matches(chain.deep_view().to_set(), csem(req.deep_view())),
{
    let mut i: usize = 0;
    while i < req.len()
        invariant
            i <= req.len(),
            forall|k: int|
                0 <= k < i ==> !(#[trigger] req.deep_view()[k]).to_set().subset_of(
                    chain.deep_view().to_set(),
                ),
        decreases req.len() - i,
    {
        if is_subchain(&req[i], chain) {
            assert(csem(req.deep_view()).contains(req.deep_view()[i as int].to_set()));
            return true;
        }
        i = i + 1;
    }
    assert forall|t: Set<AtomV>|
        csem(req.deep_view()).contains(t) implies !t.subset_of(chain.deep_view().to_set()) by {
        let k = choose|k: int|
            0 <= k < req.deep_view().len() && t == (#[trigger] req.deep_view()[k]).to_set();
    }
    false
}

/// Normalizes a constraint tree into its set of chains, distributing
/// intersection over alternation.  The result is canonical: every chain
/// sorted by the atom order and duplicate-free, no chain repeated, and
/// its denotation is exactly `sem` of the constraint.
#[verifier::loop_isolation(false)]
pub fn expand(constraint: &Constraint) -> (r: ConstraintSet)
    ensures
        cset_wf(r.deep_view()),
        csem(r.deep_view()) == sem(constraint@),
    decreases constraint,
{
    match constraint {
        Constraint::Atom(name) => {
            let s = name.as_str();
            let a = if s.unicode_len() > 0 && s.get_char(0) == '\'' {
                Atom::Variable(name.clone())
            } else {
                Atom::Type(name.clone())
            };
            assert(a@ == atom_of_name(name@));
            let ghost av = a@;
            let mut ch: Vec<Atom> = Vec::new();
            ch.push(a);
            assert(ch.deep_view() =~= seq![av]);
            let ghost chv = ch.deep_view();
            let mut r: ConstraintSet = Vec::new();
            r.push(ch);
            assert(r.deep_view() =~= seq![chv]);
            proof {
                assert(r.deep_view()[0].to_set() =~= set![atom_of_name(name@)]) by {
                    assert(seq![av][0] == av);
                }
                assert(csem(r.deep_view()) =~= set![set![atom_of_name(name@)]]) by {
                    assert(csem(r.deep_view()).contains(r.deep_view()[0].to_set()));
                }
            }
            r
        },
        Constraint::Union(cs) => {
            let ghost cv = crate::ast::views_of(cs@, cs@.len() as int);
            proof {
                crate::ast::lemma_views_of(cs@, cs@.len() as int);
            }
            let mut acc: ConstraintSet = Vec::new();
            assert(csem(acc.deep_view()) =~= sem_union(cv, 0));
            let mut k: usize = 0;
            while k < cs.len()
                invariant
                    k <= cs.len(),
                    cv == crate::ast::views_of(cs@, cs@.len() as int),
                    cv.len() == cs@.len(),
                    forall|t: int| 0 <= t < cs@.len() ==> cv[t] == cs@[t]@,
                    cset_wf(acc.deep_view()),
                    csem(acc.deep_view()) == sem_union(cv, k as int),
                decreases cs.len() - k,
            {
                let e = expand(&cs[k]);
                let ghost esem = csem(e.deep_view());
                let mut j: usize = 0;
                while j < e.len()
                    invariant
                        j <= e.len(),
                        cset_wf(e.deep_view()),
                        cset_wf(acc.deep_view()),
                        csem(acc.deep_view()) == sem_union(cv, k as int).union(
                            csem(e.deep_view().take(j as int)),
                        ),
                    decreases e.len() - j,
                {
                    proof {
                        lemma_csem_take(e.deep_view(), j as int);
                    }
                    push_chain(&mut acc, clone_chain(&e[j]));
                    assert(csem(acc.deep_view()) =~= sem_union(cv, k as int).union(
                        csem(e.deep_view().take(j as int + 1)),
                    ));
                    j = j + 1;
                }
                proof {
                    assert(e.deep_view().take(e.deep_view().len() as int) =~= e.deep_view());
                    assert(csem(acc.deep_view()) =~= sem_union(cv, k as int + 1));
                }
                k = k + 1;
            }
            assert(csem(acc.deep_view()) == sem(constraint@));
            acc
        },
        Constraint::Addition(cs) => {
            let ghost cv = crate::ast::views_of(cs@, cs@.len() as int);
            proof {
                crate::ast::lemma_views_of(cs@, cs@.len() as int);
            }
            let mut acc: ConstraintSet = Vec::new();
            acc.push(Vec::new());
            proof {
                assert(acc.deep_view()[0].to_set() =~= Set::<AtomV>::empty());
                assert(csem(acc.deep_view()) =~= sem_addition(cv, 0)) by {
                    assert(csem(acc.deep_view()).contains(acc.deep_view()[0].to_set()));
                }
            }
            let mut k: usize = 0;
            while k < cs.len()
                invariant
                    k <= cs.len(),
                    cv == crate::ast::views_of(cs@, cs@.len() as int),
                    cv.len() == cs@.len(),
                    forall|t: int| 0 <= t < cs@.len() ==> cv[t] == cs@[t]@,
                    cset_wf(acc.deep_view()),
                    csem(acc.deep_view()) == sem_addition(cv, k as int),
                decreases cs.len() - k,
            {
                let e = expand(&cs[k]);
                let ghost asem = csem(acc.deep_view());
                let ghost esem = csem(e.deep_view());
                let mut next: ConstraintSet = Vec::new();
                assert(csem(next.deep_view()) =~= pair_unions(
                    csem(acc.deep_view().take(0)),
                    esem,
                ));
                let mut i: usize = 0;
                while i < acc.len()
                    invariant
                        i <= acc.len(),
                        cset_wf(acc.deep_view()),
                        cset_wf(e.deep_view()),
                        cset_wf(next.deep_view()),
                        esem == csem(e.deep_view()),
                        csem(next.deep_view()) == pair_unions(
                            csem(acc.deep_view().take(i as int)),
                            esem,
                        ),
                    decreases acc.len() - i,
                {
                    let ghost x = acc.deep_view()[i as int].to_set();
                    let mut j: usize = 0;
                    assert(row_unions(x, csem(e.deep_view().take(0))) =~= Set::<
                        Set<AtomV>,
                    >::empty());
                    assert(csem(next.deep_view()) =~= pair_unions(
                        csem(acc.deep_view().take(i as int)),
                        esem,
                    ).union(row_unions(x, csem(e.deep_view().take(0)))));
                    while j < e.len()
                        invariant
                            j <= e.len(),
                            i < acc.len(),
                            x == acc.deep_view()[i as int].to_set(),
                            cset_wf(acc.deep_view()),
                            cset_wf(e.deep_view()),
                            cset_wf(next.deep_view()),
                            esem == csem(e.deep_view()),
                            csem(next.deep_view()) == pair_unions(
                                csem(acc.deep_view().take(i as int)),
                                esem,
                            ).union(row_unions(x, csem(e.deep_view().take(j as int)))),
                        decreases e.len() - j,
                    {
                        assert(chain_wf(acc.deep_view()[i as int]) && acc.deep_view()[i as int]
                            == acc@[i as int].deep_view());
                        assert(chain_wf(e.deep_view()[j as int]) && e.deep_view()[j as int]
                            == e@[j as int].deep_view());
                        let m = merge_chains(&acc[i], &e[j]);
                        assert(m.deep_view().to_set() == x.union(e.deep_view()[j as int].to_set()));
                        push_chain(&mut next, m);
                        proof {
                            lemma_csem_take(e.deep_view(), j as int);
                            lemma_row_unions_insert(
                                x,
                                csem(e.deep_view().take(j as int)),
                                e.deep_view()[j as int].to_set(),
                            );
                            assert(csem(next.deep_view()) =~= pair_unions(
                                csem(acc.deep_view().take(i as int)),
                                esem,
                            ).union(row_unions(x, csem(e.deep_view().take(j as int + 1)))));
                        }
                        j = j + 1;
                    }
                    proof {
                        assert(e.deep_view().take(e.deep_view().len() as int) =~= e.deep_view());
                        lemma_csem_take(acc.deep_view(), i as int);
                        lemma_pair_unions_insert(csem(acc.deep_view().take(i as int)), x, esem);
                        assert(csem(next.deep_view()) =~= pair_unions(
                            csem(acc.deep_view().take(i as int + 1)),
                            esem,
                        ));
                    }
                    i = i + 1;
                }
                proof {
                    assert(acc.deep_view().take(acc.deep_view().len() as int) =~= acc.deep_view());
                    assert(csem(next.deep_view()) == pair_unions(asem, esem));
                    assert(pair_unions(asem, esem) == sem_addition(cv, k as int + 1));
                }
                acc = next;
                k = k + 1;
            }
            assert(csem(acc.deep_view()) == sem(constraint@));
            acc
        },
        Constraint::Subtraction(lhs, rhs) => {
            let le = expand(&**lhs);
            let re = expand(&**rhs);
            let ghost gone = Set::new(|s: Set<AtomV>| set_matches(s, csem(re.deep_view())));
            let mut r: ConstraintSet = Vec::new();
            assert(csem(r.deep_view()) =~= csem(le.deep_view().take(0)).difference(gone));
            let mut i: usize = 0;
            while i < le.len()
                invariant
                    i <= le.len(),
                    cset_wf(le.deep_view()),
                    cset_wf(r.deep_view()),
                    gone == Set::new(|s: Set<AtomV>| set_matches(s, csem(re.deep_view()))),
                    csem(r.deep_view()) == csem(le.deep_view().take(i as int)).difference(gone),
                decreases le.len() - i,
            {
                proof {
                    lemma_csem_take(le.deep_view(), i as int);
                }
                if !matches_expanded(&le[i], &re) {
                    push_chain(&mut r, clone_chain(&le[i]));
                    assert(csem(r.deep_view()) =~= csem(le.deep_view().take(i as int + 1)).difference(
                        gone,
                    ));
                } else {
                    assert(csem(r.deep_view()) =~= csem(le.deep_view().take(i as int + 1)).difference(
                        gone,
                    ));
                }
                i = i + 1;
            }
            proof {
                assert(le.deep_view().take(le.deep_view().len() as int) =~= le.deep_view());
                assert(csem(r.deep_view()) == sem(constraint@)) by {
                    assert(csem(le.deep_view()) == sem(lhs@));
                    assert(csem(re.deep_view()) == sem(rhs@));
                    assert(constraint@ matches ConstraintV::Subtraction(l2, r2) && *l2 == lhs@
                        && *r2 == rhs@);
                }
            }
            r
        },
    }
}

/// Whether an instance whose properties are `chain` satisfies the
/// requirement `constraint`: at least one chain of the requirement's
/// expansion is an atom-wise subset of `chain`.
pub fn matches_chain(chain: &Vec<Atom>, constraint: &Constraint) -> (r: bool)
    ensures
        r == set_matches(chain.deep_view().to_set(), sem(constraint@)),
{
    let expanded = expand(constraint);
    matches_expanded(chain, &expanded)
}

/// Intersecting with the trivially-true set changes nothing.
proof fn lemma_pair_unions_identity(s: Set<Set<AtomV>>)
    ensures
        pair_unions(set![Set::empty()], s) == s,
{
    assert forall|u: Set<AtomV>| s.contains(u) implies pair_unions(set![Set::empty()], s).contains(
        u,
    ) by {
        assert(set![Set::<AtomV>::empty()].contains(Set::<AtomV>::empty()));
        assert(Set::<AtomV>::empty().union(u) =~= u);
    }
    assert forall|u: Set<AtomV>| pair_unions(set![Set::empty()], s).contains(u) implies s.contains(
        u,
    ) by {
        let (x, y) = choose|x: Set<AtomV>, y: Set<AtomV>|
            set![Set::<AtomV>::empty()].contains(x) && s.contains(y) && u == x.union(y);
        assert(x =~= Set::empty());
        assert(x.union(y) =~= y);
    }
    assert(pair_unions(set![Set::empty()], s) =~= s);
}

/// Pairwise intersection distributes over union on the left.
proof fn lemma_pair_unions_distributes(
    x: Set<Set<AtomV>>,
    y: Set<Set<AtomV>>,
    z: Set<Set<AtomV>>,
)
    ensures
        pair_unions(x.union(y), z) == pair_unions(x, z).union(pair_unions(y, z)),
{
    assert(pair_unions(x.union(y), z) =~= pair_unions(x, z).union(pair_unions(y, z)));
}

/// Alternation is idempotent: a union of a constraint with itself
/// denotes exactly what the constraint denotes.
pub proof fn lemma_union_idempotent(u: ConstraintV, c: ConstraintV)
    requires
        u == ConstraintV::Union(seq![c, c]),
    ensures
        sem(u) == sem(c),
{
    let cs = seq![c, c];
    assert(sem_union(cs, 0) == Set::<Set<AtomV>>::empty());
    assert(sem_union(cs, 1) == Set::<Set<AtomV>>::empty().union(sem(cs[0])));
    assert(sem_union(cs, 2) == sem_union(cs, 1).union(sem(cs[1])));
    assert(sem(u) =~= sem(c));
}

/// Intersection of a constraint with itself denotes the constraint
/// itself, wherever the constraint's chains are closed under pairwise
/// union.  An alternation of two incomparable atoms is not: intersecting
/// it with itself also yields the chain holding both atoms.
pub proof fn lemma_addition_idempotent(a: ConstraintV, c: ConstraintV)
    requires
        a == ConstraintV::Addition(seq![c, c]),
        forall|x: Set<AtomV>, y: Set<AtomV>|
            sem(c).contains(x) && sem(c).contains(y) ==> sem(c).contains(x.union(y)),
    ensures
        sem(a) == sem(c),
{
    let cs = seq![c, c];
    assert(sem_addition(cs, 0) == set![Set::<AtomV>::empty()]);
    assert(sem_addition(cs, 1) == pair_unions(sem_addition(cs, 0), sem(cs[0])));
    assert(sem_addition(cs, 2) == pair_unions(sem_addition(cs, 1), sem(cs[1])));
    lemma_pair_unions_identity(sem(c));
    assert(sem(a) == pair_unions(sem(c), sem(c)));
    assert forall|u: Set<AtomV>| sem(c).contains(u) implies pair_unions(sem(c), sem(c)).contains(
        u,
    ) by {
        assert(u.union(u) =~= u);
    }
    assert(sem(a) =~= sem(c));
}

/// Distribution: intersecting each alternative with a common constraint
/// and alternating is the same as alternating first and intersecting
/// once.
pub proof fn lemma_distribution(
    u: ConstraintV,
    d: ConstraintV,
    a: ConstraintV,
    b: ConstraintV,
    c: ConstraintV,
)
    requires
        u == ConstraintV::Union(
            seq![ConstraintV::Addition(seq![a, c]), ConstraintV::Addition(seq![b, c])],
        ),
        d == ConstraintV::Addition(seq![ConstraintV::Union(seq![a, b]), c]),
    ensures
        sem(u) == sem(d),
{
    let ac = seq![a, c];
    let bc = seq![b, c];
    assert(sem_addition(ac, 0) == set![Set::<AtomV>::empty()]);
    assert(sem_addition(bc, 0) == set![Set::<AtomV>::empty()]);
    assert(sem_addition(ac, 1) == pair_unions(set![Set::empty()], sem(a)));
    assert(sem_addition(ac, 2) == pair_unions(sem_addition(ac, 1), sem(c)));
    assert(sem_addition(bc, 1) == pair_unions(set![Set::empty()], sem(b)));
    assert(sem_addition(bc, 2) == pair_unions(sem_addition(bc, 1), sem(c)));
    lemma_pair_unions_identity(sem(a));
    lemma_pair_unions_identity(sem(b));
    let lhs_parts = seq![ConstraintV::Addition(seq![a, c]), ConstraintV::Addition(seq![b, c])];
    assert(sem_union(lhs_parts, 0) == Set::<Set<AtomV>>::empty());
    assert(sem_union(lhs_parts, 1) == Set::<Set<AtomV>>::empty().union(sem(lhs_parts[0])));
    assert(sem_union(lhs_parts, 2) == sem_union(lhs_parts, 1).union(sem(lhs_parts[1])));
    assert(sem(u) =~= pair_unions(sem(a), sem(c)).union(pair_unions(sem(b), sem(c))));
    let ab = seq![ConstraintV::Union(seq![a, b]), c];
    assert(sem_addition(ab, 0) == set![Set::<AtomV>::empty()]);
    assert(sem_addition(ab, 1) == pair_unions(set![Set::empty()], sem(ab[0])));
    assert(sem_addition(ab, 2) == pair_unions(sem_addition(ab, 1), sem(c)));
    let abu = seq![a, b];
    assert(sem_union(abu, 0) == Set::<Set<AtomV>>::empty());
    assert(sem_union(abu, 1) == Set::<Set<AtomV>>::empty().union(sem(abu[0])));
    assert(sem_union(abu, 2) == sem_union(abu, 1).union(sem(abu[1])));
    assert(sem(ab[0]) =~= sem(a).union(sem(b)));
    lemma_pair_unions_identity(sem(a).union(sem(b)));
    lemma_pair_unions_distributes(sem(a), sem(b), sem(c));
    assert(sem(u) == sem(d));
}

/// Subtracting one alternative of a union removes exactly its chains,
/// as long as no chain of the remainder subsumes a chain of the removed
/// part.  Where one does — subtracting `Atom("A")` from an `A B` chain —
/// the whole chain is removed with it.
pub proof fn lemma_subtraction_of_union(s: ConstraintV, a: ConstraintV, b: ConstraintV)
    requires
        s == ConstraintV::Subtraction(Box::new(ConstraintV::Union(seq![a, b])), Box::new(b)),
        forall|x: Set<AtomV>| sem(a).contains(x) ==> !set_matches(x, sem(b)),
    ensures
        sem(s) == sem(a),
{
    let abu = seq![a, b];
    assert(sem_union(abu, 0) == Set::<Set<AtomV>>::empty());
    assert(sem_union(abu, 1) == Set::<Set<AtomV>>::empty().union(sem(abu[0])));
    assert(sem_union(abu, 2) == sem_union(abu, 1).union(sem(abu[1])));
    let keep = sem(ConstraintV::Union(seq![a, b]));
    assert(keep =~= sem(a).union(sem(b)));
    let gone = Set::new(|x: Set<AtomV>| set_matches(x, sem(b)));
    assert(sem(s) == keep.difference(gone));
    assert forall|x: Set<AtomV>| sem(b).contains(x) implies set_matches(x, sem(b)) by {
        assert(x.subset_of(x));
    }
    assert(sem(s) =~= sem(a));
}

/// A chain satisfies a single-atom requirement exactly when it holds
/// that atom.
pub proof fn lemma_matches_atom(chain: Set<AtomV>, name: Seq<char>)
    ensures
        set_matches(chain, sem(ConstraintV::Atom(name))) == chain.contains(atom_of_name(name)),
{
    let alpha = atom_of_name(name);
    if set_matches(chain, sem(ConstraintV::Atom(name))) {
        let t = choose|t: Set<AtomV>|
            sem(ConstraintV::Atom(name)).contains(t) && t.subset_of(chain);
        assert(t == set![alpha]);
        assert(set![alpha].contains(alpha));
    }
    if chain.contains(alpha) {
        assert(set![alpha].subset_of(chain)) by {
            assert(forall|x: AtomV| set![alpha].contains(x) ==> x == alpha);
        }
        assert(sem(ConstraintV::Atom(name)).contains(set![alpha]));
    }
}

/// Subtraction distributes over alternation: removing `c` from an
/// alternation is the alternation of the removals.
pub proof fn lemma_subtraction_distributes(
    l: ConstraintV,
    r: ConstraintV,
    a: ConstraintV,
    b: ConstraintV,
    c: ConstraintV,
)
    requires
        l == ConstraintV::Subtraction(Box::new(ConstraintV::Union(seq![a, b])), Box::new(c)),
        r == ConstraintV::Union(
            seq![
                ConstraintV::Subtraction(Box::new(a), Box::new(c)),
                ConstraintV::Subtraction(Box::new(b), Box::new(c)),
            ],
        ),
    ensures
        sem(l) == sem(r),
{
    let abu = seq![a, b];
    assert(sem_union(abu, 0) == Set::<Set<AtomV>>::empty());
    assert(sem_union(abu, 1) == Set::<Set<AtomV>>::empty().union(sem(abu[0])));
    assert(sem_union(abu, 2) == sem_union(abu, 1).union(sem(abu[1])));
    assert(sem(ConstraintV::Union(seq![a, b])) =~= sem(a).union(sem(b)));
    let parts = seq![
        ConstraintV::Subtraction(Box::new(a), Box::new(c)),
        ConstraintV::Subtraction(Box::new(b), Box::new(c)),
    ];
    assert(sem_union(parts, 0) == Set::<Set<AtomV>>::empty());
    assert(sem_union(parts, 1) == Set::<Set<AtomV>>::empty().union(sem(parts[0])));
    assert(sem_union(parts, 2) == sem_union(parts, 1).union(sem(parts[1])));
    assert(sem(l) =~= sem(r));
}

/// Canonical forms are unique: two sorted duplicate-free chains that
/// read as the same set of atoms are the same chain.  Together with the
/// normal form `expand` guarantees, this makes expansion a total
/// function onto equal-by-value sets of chains.
pub proof fn lemma_canonical_chain_unique(c1: Seq<AtomV>, c2: Seq<AtomV>)
    requires
        chain_wf(c1),
        chain_wf(c2),
        c1.to_set() == c2.to_set(),
    ensures
        c1 == c2,
    decreases c1.len(),
{
    if c1.len() == 0 {
        if c2.len() > 0 {
            assert(c2.to_set().contains(c2[0]));
            assert(c1.to_set().contains(c2[0]));
        }
        assert(c1 =~= c2);
    } else if c2.len() == 0 {
        assert(c1.to_set().contains(c1[0]));
        assert(c2.to_set().contains(c1[0]));
    } else {
        assert(c1.to_set().contains(c1[0]));
        assert(c2.to_set().contains(c2[0]));
        let j = choose|j: int| 0 <= j < c2.len() && c2[j] == c1[0];
        let i = choose|i: int| 0 <= i < c1.len() && c1[i] == c2[0];
        assert(c2.to_set().contains(c1[0]));
        assert(c1.to_set().contains(c2[0]));
        if i > 0 && j > 0 {
            // Each head would then be strictly above the other.
            lemma_atom_order(c1[0], c2[0], c1[0]);
            lemma_atom_order(c2[0], c2[j], c1[i]);
            assert(atom_lt(c2[0], c1[0]));
            assert(atom_lt(c1[0], c1[i]));
            lemma_atom_order(c1[0], c1[i], c1[0]);
            assert(false);
        }
        assert(c1[0] == c2[0]);
        let t1 = c1.drop_first();
        let t2 = c2.drop_first();
        assert(chain_wf(t1)) by {
            assert forall|p: int, q: int| 0 <= p < q < t1.len() implies atom_lt(
                t1[p],
                t1[q],
            ) by {
                assert(t1[p] == c1[p + 1] && t1[q] == c1[q + 1]);
            }
        }
        assert(chain_wf(t2)) by {
            assert forall|p: int, q: int| 0 <= p < q < t2.len() implies atom_lt(
                t2[p],
                t2[q],
            ) by {
                assert(t2[p] == c2[p + 1] && t2[q] == c2[q + 1]);
            }
        }
        assert(t1.to_set() =~= t2.to_set()) by {
            assert forall|x: AtomV| t1.to_set().contains(x) implies t2.to_set().contains(x) by {
                let p = choose|p: int| 0 <= p < t1.len() && #[trigger] t1[p] == x;
                assert(c1[p + 1] == x);
                assert(c1.to_set().contains(x));
                let q = choose|q: int| 0 <= q < c2.len() && #[trigger] c2[q] == x;
                if q == 0 {
                    // The shared head cannot recur past itself.
                    assert(atom_lt(c1[0], c1[p + 1]));
                    lemma_atom_order(c1[0], x, x);
                }
                assert(t2[q - 1] == x);
            }
            assert forall|x: AtomV| t2.to_set().contains(x) implies t1.to_set().contains(x) by {
                let p = choose|p: int| 0 <= p < t2.len() && #[trigger] t2[p] == x;
                assert(c2[p + 1] == x);
                assert(c2.to_set().contains(x));
                let q = choose|q: int| 0 <= q < c1.len() && #[trigger] c1[q] == x;
                if q == 0 {
                    assert(atom_lt(c2[0], c2[p + 1]));
                    lemma_atom_order(c2[0], x, x);
                }
                assert(t1[q - 1] == x);
            }
        }
        lemma_canonical_chain_unique(t1, t2);
        assert(c1 =~= c2) by {
            assert forall|k: int| 0 <= k < c1.len() implies c1[k] == c2[k] by {
                if k > 0 {
                    assert(c1[k] == t1[k - 1] && c2[k] == t2[k - 1]);
                }
            }
        }
    }
}

} // verus!
