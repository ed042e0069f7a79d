//! Character vocabularies and the character-level encoding of a text. A
//! vocabulary is a strictly increasing vector of characters, searched by
//! bisection.
use vstd::prelude::*;

verus! {

/// Code points strictly increase along `s`.
pub open spec fn strictly_increasing(s: Seq<char>) -> bool {
    forall|i: int, j: int| 0 <= i < j < s.len() ==> (s[i] as int) < (s[j] as int)
}

/// `itos` lists each character that occurs in `text` exactly once, in
/// increasing order of code point.
pub open spec fn is_vocabulary(itos: Seq<char>, text: Seq<char>) -> bool {
    &&& strictly_increasing(itos)
    &&& forall|c: char| #[trigger] itos.contains(c) <==> text.contains(c)
}

/// `tokens` encodes `text` against `itos`: one token per character, each the
/// position of that character in `itos`.
pub open spec fn is_encoding(tokens: Seq<usize>, text: Seq<char>, itos: Seq<char>) -> bool {
    &&& tokens.len() == text.len()
    &&& forall|i: int|
        0 <= i < tokens.len() ==> #[trigger] tokens[i] < itos.len() && itos[tokens[i] as int]
            == text[i]
}

/// The characters that `tokens` stand for.
pub open spec fn decoded(itos: Seq<char>, tokens: Seq<usize>) -> Seq<char> {
    Seq::new(tokens.len(), |i: int| itos[tokens[i] as int])
}

/// Decoding an encoding gives the text back.
pub proof fn lemma_decode_encoding(tokens: Seq<usize>, text: Seq<char>, itos: Seq<char>)
    requires
        is_encoding(tokens, text, itos),
    ensures
        decoded(itos, tokens) == text,
{
    assert(decoded(itos, tokens) =~= text);
}

/// Every entry of `s` is a code point no larger than `0x10FFFF`.
pub open spec fn valid_code_points(s: Seq<char>) -> bool {
    forall|i: int| 0 <= i < s.len() ==> 0 <= #[trigger] (s[i] as int) <= 0x10FFFF
}

/// In a strictly increasing sequence of code points, the code point at
/// position `i` is at least `i`.
proof fn lemma_increasing_code_at_least_index(s: Seq<char>, i: int)
    requires
        strictly_increasing(s),
        valid_code_points(s),
        0 <= i < s.len(),
    ensures
        (s[i] as int) >= i,
    decreases i,
{
    if i > 0 {
        lemma_increasing_code_at_least_index(s, i - 1);
    }
}

/// A strictly increasing sequence of code points has at most `0x110000`
/// entries.
pub proof fn lemma_vocabulary_size_bound(itos: Seq<char>)
    requires
        strictly_increasing(itos),
        valid_code_points(itos),
    ensures
        itos.len() <= 0x110000,
{
    if itos.len() > 0 {
        lemma_increasing_code_at_least_index(itos, itos.len() - 1);
    }
}

/// The code point of `c`.
fn code_point(c: char) -> (r: u32)
    ensures
        r as int == c as int,
        r <= 0x10FFFF,
{
    c as u32
}

/// Where `c` is, or would be inserted, in the strictly increasing `itos`.
fn find_char(itos: &Vec<char>, c: char) -> (r: Result<usize, usize>)
    requires
        strictly_increasing(itos@),
    ensures
        r matches Ok(i) ==> i < itos.len() && itos@[i as int] == c,
        r matches Err(p) ==> p <= itos.len() && (forall|j: int|
            0 <= j < p ==> (itos@[j] as int) < (c as int)) && (forall|j: int|
            p <= j < itos.len() ==> (c as int) < (itos@[j] as int)),
{
    let mut lo: usize = 0;
    let mut hi: usize = itos.len();
    while lo < hi
        invariant
            strictly_increasing(itos@),
            lo <= hi <= itos.len(),
            forall|j: int| 0 <= j < lo ==> (itos@[j] as int) < (c as int),
            forall|j: int| hi <= j < itos.len() ==> (c as int) < (itos@[j] as int),
        decreases hi - lo,
    {
        let mid = lo + (hi - lo) / 2;
        let m = code_point(itos[mid]);
        let target = code_point(c);
        if m < target {
            lo = mid + 1;
        } else if target < m {
            hi = mid;
        } else {
            return Ok(mid);
        }
    }
    Err(lo)
}

/// The sorted list of the distinct characters of `chars`.
pub fn build_vocabulary(chars: &Vec<char>) -> (itos: Vec<char>)
    ensures
        is_vocabulary(itos@, chars@),
        itos.len() <= 0x110000,
{
    let mut itos: Vec<char> = Vec::new();
    let n = chars.len();
    for k in 0..n
        invariant
            n == chars.len(),
            strictly_increasing(itos@),
            valid_code_points(itos@),
            forall|c: char| #[trigger] itos@.contains(c) <==> chars@.take(k as int).contains(c),
    {
        let c = chars[k];
        let _ = code_point(c);
        let ghost before = itos@;
        match find_char(&itos, c) {
            Ok(_) => {},
            Err(p) => {
                itos.insert(p, c);
                assert forall|i: int, j: int|
                    0 <= i < j < itos@.len() implies (itos@[i] as int) < (itos@[j] as int) by {
                    if j < p {
                    } else if j == p {
                    } else if i < p {
                    } else if i == p {
                        assert(itos@[j] == before[j - 1]);
                    } else {
                        assert(itos@[i] == before[i - 1]);
                        assert(itos@[j] == before[j - 1]);
                    }
                }
                assert forall|d: char| #[trigger] itos@.contains(d) implies before.contains(d) || d
                    == c by {
                    let w = choose|w: int| 0 <= w < itos@.len() && itos@[w] == d;
                    if w < p {
                        assert(before[w] == d);
                    } else if w > p {
                        assert(before[w - 1] == d);
                    }
                }
                assert forall|d: char| before.contains(d) implies #[trigger] itos@.contains(d) by {
                    let w = choose|w: int| 0 <= w < before.len() && before[w] == d;
                    if w < p {
                        assert(itos@[w] == d);
                    } else {
                        assert(itos@[w + 1] == d);
                    }
                }
                assert(itos@[p as int] == c);
                assert forall|i: int| 0 <= i < itos@.len() implies 0 <= #[trigger] (itos@[i] as int)
                    <= 0x10FFFF by {
                    if i < p {
                        assert(itos@[i] == before[i]);
                    } else if i > p {
                        assert(itos@[i] == before[i - 1]);
                    }
                }
            },
        }
        let ghost pre = chars@.take(k as int);
        let ghost post = chars@.take(k + 1);
        assert(post =~= pre.push(c));
        assert forall|d: char| #[trigger] itos@.contains(d) <==> post.contains(d) by {
            if post.contains(d) && d != c {
                let w = choose|w: int| 0 <= w < post.len() && #[trigger] post[w] == d;
                assert(pre[w] == d);
            }
            if pre.contains(d) {
                let w = choose|w: int| 0 <= w < pre.len() && #[trigger] pre[w] == d;
                assert(post[w] == d);
            }
            if d == c {
                assert(post[k as int] == c);
            }
        }
    }
    assert(chars@.take(n as int) == chars@);
    proof {
        lemma_vocabulary_size_bound(itos@);
    }
    itos
}

/// The token of each character of `chars`: its position in `itos`.
pub fn encode_chars(chars: &Vec<char>, itos: &Vec<char>) -> (tokens: Vec<usize>)
    requires
        is_vocabulary(itos@, chars@),
    ensures
        is_encoding(tokens@, chars@, itos@),
{
    let mut tokens: Vec<usize> = Vec::new();
    let n = chars.len();
    for k in 0..n
        invariant
            n == chars.len(),
            is_vocabulary(itos@, chars@),
            is_encoding(tokens@, chars@.take(k as int), itos@),
    {
        let c = chars[k];
        assert(chars@.contains(c)) by {
            assert(chars@[k as int] == c);
        }
        assert(itos@.contains(c));
        match find_char(itos, c) {
            Ok(i) => {
                tokens.push(i);
            },
            Err(p) => {
                proof {
                    let w = choose|w: int| 0 <= w < itos@.len() && itos@[w] == c;
                    assert(false);
                }
            },
        }
        assert forall|i: int| 0 <= i < tokens@.len() implies #[trigger] tokens@[i] < itos@.len()
            && itos@[tokens@[i] as int] == chars@.take(k + 1)[i] by {
            if i < k {
                assert(chars@.take(k + 1)[i] == chars@.take(k as int)[i]);
            }
        }
    }
    assert(chars@.take(n as int) == chars@);
    tokens
}

} // verus!
