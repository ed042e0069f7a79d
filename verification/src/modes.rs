//! The order in which the spectral analysis reports training modes: the
//! known modes in a fixed order of preference, then any others
//! alphabetically.
use crate::text::{
    char_lex_le, lemma_lex_antisymmetric, lemma_lex_reflexive, lemma_lex_total, lemma_lex_transitive,
    lex_le, names, same_text, sort_names, text_chars, NameOrder,
};
use vstd::prelude::*;
use vstd::relations::total_ordering;

verus! {

/// The position of `name` among the preferred modes "frozen_standard",
/// "harmonic_heads", "frozen_heads", "baseline", "harmonic", "frozen",
/// "curriculum_pre", "curriculum"; `usize::MAX` for any other name.
pub open spec fn mode_rank(name: Seq<char>) -> nat {
    if name == "frozen_standard"@ {
        0
    } else if name == "harmonic_heads"@ {
        1
    } else if name == "frozen_heads"@ {
        2
    } else if name == "baseline"@ {
        3
    } else if name == "harmonic"@ {
        4
    } else if name == "frozen"@ {
        5
    } else if name == "curriculum_pre"@ {
        6
    } else if name == "curriculum"@ {
        7
    } else {
        usize::MAX as nat
    }
}

/// Mode `a` is reported no later than mode `b`: by preference rank, then
/// alphabetically.
pub open spec fn mode_le(a: Seq<char>, b: Seq<char>) -> bool {
    mode_rank(a) < mode_rank(b) || (mode_rank(a) == mode_rank(b) && char_lex_le(a, b))
}

/// `mode_le` as a relation.
pub open spec fn mode_order() -> spec_fn(Seq<char>, Seq<char>) -> bool {
    |a: Seq<char>, b: Seq<char>| mode_le(a, b)
}

/// The reporting order of modes is a total order.
pub proof fn lemma_mode_order_total()
    ensures
        total_ordering(mode_order()),
{
    let r = mode_order();
    assert forall|x: Seq<char>| #[trigger] r(x, x) by {
        lemma_lex_reflexive(x);
    }
    assert forall|x: Seq<char>, y: Seq<char>| #[trigger] r(x, y) && #[trigger] r(y, x) implies x
        == y by {
        lemma_lex_antisymmetric(x, y);
    }
    assert forall|x: Seq<char>, y: Seq<char>, z: Seq<char>| #[trigger]
        r(x, y) && #[trigger] r(y, z) implies r(x, z) by {
        if mode_rank(x) == mode_rank(y) && mode_rank(y) == mode_rank(z) {
            lemma_lex_transitive(x, y, z);
        }
    }
    assert forall|x: Seq<char>, y: Seq<char>| #[trigger] r(x, y) || #[trigger] r(y, x) by {
        lemma_lex_total(x, y);
    }
}

/// The eight known training modes, most preferred first.
pub open spec fn preferred_modes() -> Seq<Seq<char>> {
    seq![
        "frozen_standard"@,
        "harmonic_heads"@,
        "frozen_heads"@,
        "baseline"@,
        "harmonic"@,
        "frozen"@,
        "curriculum_pre"@,
        "curriculum"@,
    ]
}

/// Each known mode's rank is its place in the list of preferred modes, and
/// every other name ranks after all of them.
pub proof fn lemma_rank_is_place_in_preference(name: Seq<char>)
    ensures
        forall|i: int| 0 <= i < 8 ==> mode_rank(#[trigger] preferred_modes()[i]) == i,
        !preferred_modes().contains(name) ==> mode_rank(name) >= 8,
{
    let pref = preferred_modes();
    reveal_strlit("frozen_standard");
    reveal_strlit("harmonic_heads");
    reveal_strlit("frozen_heads");
    reveal_strlit("baseline");
    reveal_strlit("harmonic");
    reveal_strlit("frozen");
    reveal_strlit("curriculum_pre");
    reveal_strlit("curriculum");
    assert(pref[0] == "frozen_standard"@);
    assert(pref[1] == "harmonic_heads"@);
    assert(pref[2] == "frozen_heads"@);
    assert(pref[3] == "baseline"@);
    assert(pref[4] == "harmonic"@);
    assert(pref[5] == "frozen"@);
    assert(pref[6] == "curriculum_pre"@);
    assert(pref[7] == "curriculum"@);
    assert("harmonic_heads"@[0] != "curriculum_pre"@[0]);
    assert("harmonic_heads"@[0] != "frozen_standard"@[0]);
    assert("harmonic"@[0] != "baseline"@[0]);
    assert forall|i: int| 0 <= i < 8 implies mode_rank(#[trigger] pref[i]) == i by {
        if i == 0 {
            assert(mode_rank("frozen_standard"@) == 0);
        } else if i == 1 {
            assert(mode_rank("harmonic_heads"@) == 1);
        } else if i == 2 {
            assert(mode_rank("frozen_heads"@) == 2);
        } else if i == 3 {
            assert(mode_rank("baseline"@) == 3);
        } else if i == 4 {
            assert(mode_rank("harmonic"@) == 4);
        } else if i == 5 {
            assert(mode_rank("frozen"@) == 5);
        } else if i == 6 {
            assert(mode_rank("curriculum_pre"@) == 6);
        } else {
            assert("curriculum"@.len() != "frozen_standard"@.len());
            assert("curriculum"@.len() != "harmonic_heads"@.len());
            assert("curriculum"@.len() != "frozen_heads"@.len());
            assert("curriculum"@.len() != "baseline"@.len());
            assert("curriculum"@.len() != "frozen"@.len());
            assert("curriculum"@.len() != "curriculum_pre"@.len());
            assert(mode_rank("curriculum"@) == 7);
        }
    }
}

/// In the reporting order the modes are a rearrangement of the given ones;
/// a more preferred known mode comes before a less preferred one; every known
/// mode comes before every other name; and the other names come
/// alphabetically.
pub proof fn lemma_reporting_order(modes: Seq<Seq<char>>)
    ensures
        modes.sort_by(mode_order()).to_multiset() == modes.to_multiset(),
        forall|p: int, q: int, i: int, j: int|
            0 <= p < modes.sort_by(mode_order()).len() && 0 <= q < modes.sort_by(
                mode_order(),
            ).len() && 0 <= i < j < 8 && #[trigger] modes.sort_by(mode_order())[p]
                == #[trigger] preferred_modes()[i] && #[trigger] modes.sort_by(mode_order())[q]
                == #[trigger] preferred_modes()[j] ==> p < q,
        forall|p: int, q: int|
            0 <= p < modes.sort_by(mode_order()).len() && 0 <= q < modes.sort_by(
                mode_order(),
            ).len() && preferred_modes().contains(#[trigger] modes.sort_by(mode_order())[p])
                && !preferred_modes().contains(#[trigger] modes.sort_by(mode_order())[q]) ==> p
                < q,
        forall|p: int, q: int|
            0 <= p < q < modes.sort_by(mode_order()).len() && !preferred_modes().contains(
                #[trigger] modes.sort_by(mode_order())[p],
            ) && !preferred_modes().contains(#[trigger] modes.sort_by(mode_order())[q])
                ==> char_lex_le(modes.sort_by(mode_order())[p], modes.sort_by(mode_order())[q]),
{
    let s = modes.sort_by(mode_order());
    let pref = preferred_modes();
    lemma_mode_order_total();
    modes.lemma_sort_by_ensures(mode_order());
    lemma_rank_is_place_in_preference(Seq::empty());
    assert forall|p: int, q: int, i: int, j: int|
        0 <= p < s.len() && 0 <= q < s.len() && 0 <= i < j < 8 && #[trigger] s[p]
            == #[trigger] pref[i] && #[trigger] s[q] == #[trigger] pref[j] implies p < q by {
        assert(mode_rank(pref[i]) == i);
        assert(mode_rank(pref[j]) == j);
        if q < p {
            assert(mode_order()(s[q], s[p]));
        }
    }
    assert forall|p: int, q: int|
        0 <= p < s.len() && 0 <= q < s.len() && pref.contains(#[trigger] s[p])
            && !pref.contains(#[trigger] s[q]) implies p < q by {
        let i = choose|i: int| 0 <= i < pref.len() && pref[i] == s[p];
        assert(mode_rank(pref[i]) == i);
        lemma_rank_is_place_in_preference(s[q]);
        if q < p {
            assert(mode_order()(s[q], s[p]));
        }
    }
    assert forall|p: int, q: int|
        0 <= p < q < s.len() && !pref.contains(#[trigger] s[p]) && !pref.contains(
            #[trigger] s[q],
        ) implies char_lex_le(s[p], s[q]) by {
        lemma_rank_is_place_in_preference(s[p]);
        lemma_rank_is_place_in_preference(s[q]);
        assert(mode_order()(s[p], s[q]));
    }
}

/// The preference rank of a mode name.
pub fn mode_rank_of(name: &str) -> (r: usize)
    ensures
        r == mode_rank(name@),
{
    if same_text(name, "frozen_standard") {
        0
    } else if same_text(name, "harmonic_heads") {
        1
    } else if same_text(name, "frozen_heads") {
        2
    } else if same_text(name, "baseline") {
        3
    } else if same_text(name, "harmonic") {
        4
    } else if same_text(name, "frozen") {
        5
    } else if same_text(name, "curriculum_pre") {
        6
    } else if same_text(name, "curriculum") {
        7
    } else {
        usize::MAX
    }
}

/// Whether mode `a` is reported no later than mode `b`.
pub fn mode_precedes(a: &str, b: &str) -> (r: bool)
    ensures
        r == mode_le(a@, b@),
{
    let ra = mode_rank_of(a);
    let rb = mode_rank_of(b);
    if ra != rb {
        return ra < rb;
    }
    lex_le(&text_chars(a), &text_chars(b))
}

/// The mode names in reporting order: the preferred modes first, in their
/// fixed order, then all others alphabetically.
pub fn sort_modes(modes: &Vec<String>) -> (r: Vec<String>)
    ensures
        names(r@) == names(modes@).sort_by(mode_order()),
{
    sort_names::<ReportingOrder>(modes)
}

/// The reporting order of modes: by preference rank, then alphabetically.
pub struct ReportingOrder;

impl NameOrder for ReportingOrder {
    open spec fn order() -> spec_fn(Seq<char>, Seq<char>) -> bool {
        mode_order()
    }

    proof fn lemma_total() {
        lemma_mode_order_total();
    }

    fn precedes(a: &str, b: &str) -> (r: bool) {
        mode_precedes(a, b)
    }
}

/// `name` is one of the names of every list in `others`.
pub open spec fn in_every(name: Seq<char>, others: Seq<Vec<String>>) -> bool {
    forall|m: int| 0 <= m < others.len() ==> #[trigger] names(others[m]@).contains(name)
}

/// The names of `first` that occur in every list of `others`.
pub open spec fn common_to_all(first: Seq<String>, others: Seq<Vec<String>>) -> Seq<Seq<char>> {
    names(first).filter(|name: Seq<char>| in_every(name, others))
}

/// A name is common to all modes exactly when the first mode has it and so
/// does every one of the other modes, the last included; the common names
/// keep the first mode's order.
pub proof fn lemma_common_names_in_every_mode(first: Seq<String>, others: Seq<Vec<String>>)
    ensures
        forall|name: Seq<char>|
            #[trigger] common_to_all(first, others).contains(name) <==> (names(first).contains(
                name,
            ) && forall|m: int| 0 <= m < others.len() ==> names(others[m]@).contains(name)),
        (forall|k: int, m: int|
            0 <= k < first.len() && 0 <= m < others.len() ==> names(#[trigger] others[m]@).contains(
                #[trigger] first[k]@,
            )) ==> common_to_all(first, others) == names(first),
    decreases first.len(),
{
    let pred = |name: Seq<char>| in_every(name, others);
    let all = names(first);
    let common = common_to_all(first, others);
    assert forall|name: Seq<char>| #[trigger] common.contains(name) <==> (all.contains(name)
        && forall|m: int| 0 <= m < others.len() ==> names(others[m]@).contains(name)) by {
        if common.contains(name) {
            let i = choose|i: int| 0 <= i < common.len() && common[i] == name;
            all.lemma_filter_pred(pred, i);
            all.lemma_filter_contains_rev(pred, name);
        }
        if all.contains(name) && forall|m: int|
            0 <= m < others.len() ==> names(others[m]@).contains(name) {
            let i = choose|i: int| 0 <= i < all.len() && all[i] == name;
            assert(in_every(name, others));
            all.lemma_filter_contains(pred, i);
        }
    }
    if first.len() > 0 {
        let rest = first.drop_last();
        lemma_common_names_in_every_mode(rest, others);
        assert(names(rest) =~= all.drop_last());
        if forall|k: int, m: int|
            0 <= k < first.len() && 0 <= m < others.len() ==> names(
                #[trigger] others[m]@,
            ).contains(#[trigger] first[k]@) {
            assert forall|k: int, m: int|
                0 <= k < rest.len() && 0 <= m < others.len() implies names(
                #[trigger] others[m]@,
            ).contains(#[trigger] rest[k]@) by {
                assert(rest[k] == first[k]);
            }
            let last = first.len() - 1;
            assert forall|m: int| 0 <= m < others.len() implies #[trigger] names(
                others[m]@,
            ).contains(all.last()) by {
                assert(names(others[m]@).contains(first[last]@));
            }
            reveal_with_fuel(Seq::<_>::filter, 1);
            assert(common == common_to_all(rest, others).push(all.last()));
            assert(common =~= all);
        }
    } else {
        reveal_with_fuel(Seq::<_>::filter, 1);
        assert(common =~= all);
    }
}

/// Whether `name` is one of the names in `list`.
fn has_name(list: &Vec<String>, name: &str) -> (r: bool)
    ensures
        r == names(list@).contains(name@),
{
    let n = list.len();
    for i in 0..n
        invariant
            n == list@.len(),
            forall|j: int| 0 <= j < i ==> #[trigger] list@[j]@ != name@,
    {
        if same_text(list[i].as_str(), name) {
            assert(names(list@)[i as int] == name@);
            return true;
        }
    }
    assert forall|j: int| 0 <= j < names(list@).len() implies #[trigger] names(list@)[j] != name@ by {
        assert(names(list@)[j] == list@[j]@);
    }
    false
}

/// The weight names of the first mode that every other mode has too, in the
/// first mode's order.
pub fn common_names(first: &Vec<String>, others: &Vec<Vec<String>>) -> (r: Vec<String>)
    ensures
        names(r@) == common_to_all(first@, others@),
{
    let mut common: Vec<String> = Vec::new();
    let n = first.len();
    let mut k: usize = 0;
    assert(names(common@) =~= names(first@).take(0).filter(
        |name: Seq<char>| in_every(name, others@),
    )) by {
        reveal_with_fuel(Seq::<_>::filter, 1);
    }
    while k < n
        invariant
            n == first@.len(),
            k <= n,
            names(common@) == names(first@).take(k as int).filter(
                |name: Seq<char>| in_every(name, others@),
            ),
        decreases n - k,
    {
        let name = first[k].as_str();
        let mut everywhere = true;
        let m = others.len();
        for j in 0..m
            invariant
                m == others@.len(),
                everywhere == (forall|t: int| 0 <= t < j ==> #[trigger] names(others@[t]@).contains(
                    name@,
                )),
        {
            if !has_name(&others[j], name) {
                everywhere = false;
            }
        }
        let ghost before = names(common@);
        if everywhere {
            common.push(first[k].clone());
        }
        proof {
            reveal_with_fuel(Seq::<_>::filter, 1);
            assert(names(first@).take(k + 1).drop_last() =~= names(first@).take(k as int));
            assert(names(first@).take(k + 1).last() == first@[k as int]@);
            assert(in_every(name@, others@) == everywhere);
            assert(names(common@) =~= names(first@).take(k + 1).filter(
                |name: Seq<char>| in_every(name, others@),
            ));
        }
        k = k + 1;
    }
    assert(names(first@).take(n as int) =~= names(first@));
    common
}

/// The mode that the others are compared with: "frozen_standard" if present,
/// else "baseline" if present, else the first.
pub open spec fn reference_mode(modes: Seq<Seq<char>>) -> int {
    match modes.index_of_first("frozen_standard"@) {
        Some(i) => i,
        None => match modes.index_of_first("baseline"@) {
            Some(i) => i,
            None => 0,
        },
    }
}

/// Position of the first occurrence of `name` in `list`, if any.
fn position_of(list: &Vec<String>, name: &str) -> (r: Option<usize>)
    ensures
        r matches Some(i) ==> names(list@).index_of_first(name@) == Some(i as int),
        r is None ==> names(list@).index_of_first(name@) is None,
{
    let n = list.len();
    for i in 0..n
        invariant
            n == list@.len(),
            forall|j: int| 0 <= j < i ==> #[trigger] list@[j]@ != name@,
    {
        if same_text(list[i].as_str(), name) {
            proof {
                let s = names(list@);
                assert(s[i as int] == name@);
                assert forall|j: int| 0 <= j < i implies s[j] != name@ by {
                    assert(s[j] == list@[j]@);
                }
                s.index_of_first_ensures(name@);
                let idx = s.index_of_first(name@).unwrap();
                if idx < i {
                    assert(s[idx] == list@[idx]@);
                }
            }
            return Some(i);
        }
    }
    assert forall|j: int| 0 <= j < names(list@).len() implies #[trigger] names(list@)[j] != name@ by {
        assert(names(list@)[j] == list@[j]@);
    }
    proof {
        names(list@).index_of_first_ensures(name@);
    }
    None
}

/// Index of the mode the others are compared with: "frozen_standard" if
/// present, else "baseline" if present, else the first.
pub fn reference_mode_index(modes: &Vec<String>) -> (r: usize)
    ensures
        r == reference_mode(names(modes@)),
{
    match position_of(modes, "frozen_standard") {
        Some(i) => i,
        None => match position_of(modes, "baseline") {
            Some(i) => i,
            None => 0,
        },
    }
}

} // verus!
