//! Which dumped tensors the spectral analysis of the weights looks at, by
//! name, and in which order it reads them.
use crate::text::{lex_order, names, push_char, sort_names, text_chars, Lexicographic};
use vstd::prelude::*;

verus! {

/// `pre` is a prefix of `s`.
pub open spec fn has_prefix(s: Seq<char>, pre: Seq<char>) -> bool {
    pre.len() <= s.len() && s.subrange(0, pre.len() as int) == pre
}

/// `suf` is a suffix of `s`.
pub open spec fn has_suffix(s: Seq<char>, suf: Seq<char>) -> bool {
    suf.len() <= s.len() && s.subrange(s.len() - suf.len(), s.len() as int) == suf
}

/// `pat` occurs somewhere in `s`.
pub open spec fn has_infix(s: Seq<char>, pat: Seq<char>) -> bool {
    exists|i: int| 0 <= i <= s.len() - pat.len() && #[trigger] s.subrange(i, i + pat.len()) == pat
}

/// A weight matrix the analysis looks at: its name ends in ".weight", it is
/// not a layer norm (no "ln_"), not an embedding table ("wte", "wpe") and not
/// a reference dump (leading '_').
pub open spec fn analysis_target(name: Seq<char>) -> bool {
    &&& has_suffix(name, ".weight"@)
    &&& !has_infix(name, "ln_"@)
    &&& !has_prefix(name, "wte"@)
    &&& !has_prefix(name, "wpe"@)
    &&& !has_prefix(name, seq!['_'])
}

/// Whether `s[at..at + pat.len()]` is `pat`.
fn matches_at(s: &Vec<char>, pat: &Vec<char>, at: usize) -> (r: bool)
    requires
        at + pat.len() <= s.len(),
    ensures
        r == (s@.subrange(at as int, at + pat.len()) == pat@),
{
    let n = pat.len();
    for i in 0..n
        invariant
            n == pat.len(),
            at + n <= s.len(),
            forall|j: int| 0 <= j < i ==> s@[at + j] == pat@[j],
    {
        if s[at + i] != pat[i] {
            assert(s@.subrange(at as int, at + pat.len())[i as int] != pat@[i as int]);
            return false;
        }
    }
    assert(s@.subrange(at as int, at + pat.len()) =~= pat@);
    true
}

/// Whether `pre` is a prefix of `s`.
fn starts_with(s: &Vec<char>, pre: &Vec<char>) -> (r: bool)
    ensures
        r == has_prefix(s@, pre@),
{
    pre.len() <= s.len() && matches_at(s, pre, 0)
}

/// Whether `suf` is a suffix of `s`.
fn ends_with(s: &Vec<char>, suf: &Vec<char>) -> (r: bool)
    ensures
        r == has_suffix(s@, suf@),
{
    suf.len() <= s.len() && matches_at(s, suf, s.len() - suf.len())
}

/// Whether `pat` occurs in `s`.
fn contains(s: &Vec<char>, pat: &Vec<char>) -> (r: bool)
    ensures
        r == has_infix(s@, pat@),
{
    if pat.len() > s.len() {
        return false;
    }
    if pat.len() == 0 {
        assert(s@.subrange(0, 0int + pat@.len()) =~= pat@);
        return true;
    }
    let last = s.len() - pat.len();
    let mut i: usize = 0;
    while i <= last
        invariant
            last == s.len() - pat.len(),
            pat.len() > 0,
            i <= last + 1,
            forall|j: int| 0 <= j < i ==> #[trigger] s@.subrange(j, j + pat@.len()) != pat@,
        decreases last + 1 - i,
    {
        if matches_at(s, pat, i) {
            return true;
        }
        i = i + 1;
    }
    false
}

/// Returns true for the weight matrices the spectral analysis looks at: not
/// biases, layer norms, embedding tables or reference dumps.
pub fn is_analysis_target(name: &str) -> (r: bool)
    ensures
        r == analysis_target(name@),
{
    let s = text_chars(name);
    if !ends_with(&s, &text_chars(".weight")) {
        return false;
    }
    if contains(&s, &text_chars("ln_")) {
        return false;
    }
    let underscore = vec!['_'];
    assert(underscore@ == seq!['_']);
    if starts_with(&s, &text_chars("wte")) || starts_with(&s, &text_chars("wpe")) || starts_with(
        &s,
        &underscore,
    ) {
        return false;
    }
    true
}

/// A dump file's weight name: the file name without its ".bin" suffix.
pub open spec fn weight_name(file: Seq<char>) -> Seq<char> {
    file.subrange(0, file.len() - 4)
}

/// The weight names of the dump files among `files` that the analysis looks
/// at (files named "<weight>.bin" whose weight is an analysis target), in the
/// order of `files`.
pub open spec fn target_names(files: Seq<Seq<char>>) -> Seq<Seq<char>>
    decreases files.len(),
{
    if files.len() == 0 {
        Seq::empty()
    } else {
        let rest = target_names(files.drop_last());
        let f = files.last();
        if has_suffix(f, ".bin"@) && analysis_target(weight_name(f)) {
            rest.push(weight_name(f))
        } else {
            rest
        }
    }
}

/// A `String` holding `chars[0..end]`.
fn string_of_prefix(chars: &Vec<char>, end: usize) -> (r: String)
    requires
        end <= chars.len(),
    ensures
        r@ == chars@.subrange(0, end as int),
{
    let mut r = String::new();
    for i in 0..end
        invariant
            end <= chars.len(),
            r@ == chars@.subrange(0, i as int),
    {
        push_char(&mut r, chars[i]);
        assert(r@ =~= chars@.subrange(0, i + 1));
    }
    r
}

/// The weights a mode's dump directory holds for the analysis, from the names
/// of its files: each "<weight>.bin" whose weight is an analysis target, as
/// "<weight>", sorted lexicographically.
pub fn weight_entries(files: &Vec<String>) -> (r: Vec<String>)
    ensures
        names(r@) == target_names(names(files@)).sort_by(lex_order()),
{
    let bin = text_chars(".bin");
    proof {
        reveal_strlit(".bin");
    }
    let mut kept: Vec<String> = Vec::new();
    let n = files.len();
    let mut k: usize = 0;
    assert(names(files@).take(0) =~= Seq::<Seq<char>>::empty());
    while k < n
        invariant
            n == files.len(),
            k <= n,
            bin@ == ".bin"@,
            bin@.len() == 4,
            names(kept@) == target_names(names(files@).take(k as int)),
        decreases n - k,
    {
        let chars = text_chars(files[k].as_str());
        let ghost f = files@[k as int]@;
        let ghost before = names(kept@);
        assert(names(files@).take(k + 1).drop_last() =~= names(files@).take(k as int));
        assert(names(files@).take(k + 1).last() == f);
        if ends_with(&chars, &bin) {
            let stem = string_of_prefix(&chars, chars.len() - 4);
            if is_analysis_target(stem.as_str()) {
                kept.push(stem);
                assert(names(kept@) =~= before.push(weight_name(f)));
            }
        }
        k = k + 1;
    }
    assert(names(files@).take(n as int) =~= names(files@));
    sort_names::<Lexicographic>(&kept)
}

} // verus!
