//! Text helpers: the characters of a string slice, comparison of string
//! slices, lexicographic order by code point, and building a `String` one
//! character at a time.
use vstd::prelude::*;
use vstd::relations::{sorted_by, total_ordering};

verus! {

/// The characters of `text`, in order.
pub fn text_chars(text: &str) -> (v: Vec<char>)
    ensures
        v@ == text@,
{
    let mut v: Vec<char> = Vec::new();
    for c in it: text.chars()
        invariant
            v@ == it.seq().take(it.index()),
    {
        v.push(c);
    }
    v
}

/// Whether `a` and `b` hold the same characters.
pub fn same_text(a: &str, b: &str) -> (r: bool)
    ensures
        r == (a@ == b@),
{
    let ca = text_chars(a);
    let cb = text_chars(b);
    if ca.len() != cb.len() {
        return false;
    }
    let n = ca.len();
    for i in 0..n
        invariant
            n == ca.len() == cb.len(),
            ca@ == a@,
            cb@ == b@,
            forall|j: int| 0 <= j < i ==> ca@[j] == cb@[j],
    {
        if ca[i] != cb[i] {
            return false;
        }
    }
    assert(ca@ =~= cb@);
    true
}

/// Appends `c` to `s` (std's `String::push`).
#[verifier::external_body]
pub(crate) fn push_char(s: &mut String, c: char)
    ensures
        final(s)@ == old(s)@.push(c),
{
    s.push(c);
}

/// The names held by a list of strings.
pub open spec fn names(v: Seq<String>) -> Seq<Seq<char>> {
    v.map_values(|s: String| s@)
}

/// `a` is lexicographically at most `b`, comparing code points.
pub open spec fn char_lex_le(a: Seq<char>, b: Seq<char>) -> bool
    decreases a.len(),
{
    if a.len() == 0 {
        true
    } else if b.len() == 0 {
        false
    } else if (a[0] as int) < (b[0] as int) {
        true
    } else if a[0] == b[0] {
        char_lex_le(a.drop_first(), b.drop_first())
    } else {
        false
    }
}

/// Every string is lexicographically at most itself.
pub proof fn lemma_lex_reflexive(a: Seq<char>)
    ensures
        char_lex_le(a, a),
    decreases a.len(),
{
    if a.len() > 0 {
        lemma_lex_reflexive(a.drop_first());
    }
}

/// Strings at most each other are equal.
pub proof fn lemma_lex_antisymmetric(a: Seq<char>, b: Seq<char>)
    requires
        char_lex_le(a, b),
        char_lex_le(b, a),
    ensures
        a == b,
    decreases a.len(),
{
    if a.len() > 0 {
        lemma_lex_antisymmetric(a.drop_first(), b.drop_first());
        assert(a =~= seq![a[0]] + a.drop_first());
        assert(b =~= seq![b[0]] + b.drop_first());
    } else {
        assert(b.len() == 0);
        assert(a =~= b);
    }
}

/// Lexicographic order is transitive.
pub proof fn lemma_lex_transitive(a: Seq<char>, b: Seq<char>, c: Seq<char>)
    requires
        char_lex_le(a, b),
        char_lex_le(b, c),
    ensures
        char_lex_le(a, c),
    decreases a.len(),
{
    if a.len() > 0 && b.len() > 0 && c.len() > 0 && a[0] == b[0] && b[0] == c[0] {
        lemma_lex_transitive(a.drop_first(), b.drop_first(), c.drop_first());
    }
}

/// Any two strings are ordered one way or the other.
pub proof fn lemma_lex_total(a: Seq<char>, b: Seq<char>)
    ensures
        char_lex_le(a, b) || char_lex_le(b, a),
    decreases a.len(),
{
    if a.len() > 0 && b.len() > 0 && a[0] == b[0] {
        lemma_lex_total(a.drop_first(), b.drop_first());
    } else if a.len() > 0 && b.len() > 0 {
        assert((a[0] as int) != (b[0] as int));
    }
}

/// `char_lex_le` as a relation.
pub open spec fn lex_order() -> spec_fn(Seq<char>, Seq<char>) -> bool {
    |a: Seq<char>, b: Seq<char>| char_lex_le(a, b)
}

/// Lexicographic order by code point is a total order.
pub proof fn lemma_lex_order_total()
    ensures
        total_ordering(lex_order()),
{
    let r = lex_order();
    assert forall|x: Seq<char>| #[trigger] r(x, x) by {
        lemma_lex_reflexive(x);
    }
    assert forall|x: Seq<char>, y: Seq<char>| #[trigger] r(x, y) && #[trigger] r(y, x) implies x
        == y by {
        lemma_lex_antisymmetric(x, y);
    }
    assert forall|x: Seq<char>, y: Seq<char>, z: Seq<char>| #[trigger]
        r(x, y) && #[trigger] r(y, z) implies r(x, z) by {
        lemma_lex_transitive(x, y, z);
    }
    assert forall|x: Seq<char>, y: Seq<char>| #[trigger] r(x, y) || #[trigger] r(y, x) by {
        lemma_lex_total(x, y);
    }
}

/// The code point of `c`.
fn code(c: char) -> (r: u32)
    ensures
        r as int == c as int,
{
    c as u32
}

/// Whether `a` is lexicographically at most `b`.
pub(crate) fn lex_le(a: &Vec<char>, b: &Vec<char>) -> (r: bool)
    ensures
        r == char_lex_le(a@, b@),
{
    let mut i: usize = 0;
    assert(a@.skip(0) =~= a@);
    assert(b@.skip(0) =~= b@);
    while i < a.len()
        invariant
            i <= a.len(),
            i <= b.len(),
            char_lex_le(a@, b@) == char_lex_le(a@.skip(i as int), b@.skip(i as int)),
        decreases a.len() - i,
    {
        if i == b.len() {
            return false;
        }
        let x = code(a[i]);
        let y = code(b[i]);
        assert(a@.skip(i as int)[0] == a@[i as int]);
        assert(b@.skip(i as int)[0] == b@[i as int]);
        if x < y {
            return true;
        }
        if x != y {
            return false;
        }
        assert(a@.skip(i as int).drop_first() =~= a@.skip(i + 1));
        assert(b@.skip(i as int).drop_first() =~= b@.skip(i + 1));
        i = i + 1;
    }
    true
}

/// A total order on names, and how to decide it.
pub trait NameOrder {
    /// The order, as a relation: `order()(a, b)` when `a` comes no later than
    /// `b`.
    spec fn order() -> spec_fn(Seq<char>, Seq<char>) -> bool;

    /// The order is total.
    proof fn lemma_total()
        ensures
            total_ordering(Self::order()),
    ;

    /// Whether `a` comes no later than `b`.
    fn precedes(a: &str, b: &str) -> (r: bool)
        ensures
            r == (Self::order())(a@, b@),
    ;
}

/// Lexicographic order by code point.
pub struct Lexicographic;

impl NameOrder for Lexicographic {
    open spec fn order() -> spec_fn(Seq<char>, Seq<char>) -> bool {
        lex_order()
    }

    proof fn lemma_total() {
        lemma_lex_order_total();
    }

    fn precedes(a: &str, b: &str) -> (r: bool) {
        lex_le(&text_chars(a), &text_chars(b))
    }
}

/// The strings of `v` sorted by the order `O` (a stable insertion sort).
pub fn sort_names<O: NameOrder>(v: &Vec<String>) -> (r: Vec<String>)
    ensures
        names(r@) == names(v@).sort_by(O::order()),
{
    let mut sorted: Vec<String> = Vec::new();
    let n = v.len();
    proof {
        O::lemma_total();
    }
    let mut k: usize = 0;
    assert(names(v@).take(0) =~= Seq::<Seq<char>>::empty());
    assert(names(sorted@) =~= Seq::<Seq<char>>::empty());
    while k < n
        invariant
            n == v.len(),
            k <= n,
            total_ordering(O::order()),
            sorted_by(names(sorted@), O::order()),
            names(sorted@).to_multiset() == names(v@).take(k as int).to_multiset(),
        decreases n - k,
    {
        let x = v[k].clone();
        let mut p: usize = 0;
        while p < sorted.len() && O::precedes(sorted[p].as_str(), x.as_str())
            invariant
                p <= sorted.len(),
                forall|i: int| 0 <= i < p ==> O::order()(#[trigger] sorted@[i]@, x@),
            decreases sorted.len() - p,
        {
            p = p + 1;
        }
        let ghost before = names(sorted@);
        sorted.insert(p, x);
        proof {
            let after = names(sorted@);
            assert(after =~= before.insert(p as int, x@));
            if p < before.len() {
                assert(!O::order()(before[p as int], x@));
                assert(O::order()(before[p as int], x@) || O::order()(x@, before[p as int]));
            }
            assert forall|i: int, j: int| 0 <= i < j < after.len() implies #[trigger] O::order()(
                after[i],
                after[j],
            ) by {
                if j < p {
                    assert(O::order()(before[i], before[j]));
                } else if j == p {
                    assert(O::order()(sorted@[i]@, x@));
                } else if i < p {
                    assert(O::order()(after[i], x@));
                    assert(O::order()(x@, before[p as int]));
                    if j - 1 > p {
                        assert(O::order()(before[p as int], before[j - 1]));
                    }
                } else if i == p {
                    if j - 1 > p {
                        assert(O::order()(before[p as int], before[j - 1]));
                    }
                } else {
                    assert(O::order()(before[i - 1], before[j - 1]));
                }
            }
            vstd::seq_lib::to_multiset_insert(before, p as int, x@);
            assert(names(v@).take(k + 1) =~= names(v@).take(k as int).push(x@));
            vstd::seq_lib::to_multiset_build(names(v@).take(k as int), x@);
        }
        k = k + 1;
    }
    proof {
        assert(names(v@).take(n as int) =~= names(v@));
        names(v@).lemma_sort_by_ensures(O::order());
        vstd::seq_lib::lemma_sorted_unique(names(sorted@), names(v@).sort_by(O::order()), O::order());
    }
    sorted
}

} // verus!
