use vstd::prelude::*;
use crate::parts::PatternPart;
use crate::parts::wildcard_count;

verus! {

/// The structural delimiters that a multi-character wildcard never
/// crosses: a captured run stays within one parenthesized,
/// semicolon-delimited list element.
pub open spec fn is_delimiter(c: char) -> bool {
    c == '(' || c == ')' || c == ';'
}

/// Executable form of [`is_delimiter`].
pub fn delimiter(c: char) -> (r: bool)
    ensures
        r == is_delimiter(c),
{
    c == '(' || c == ')' || c == ';'
}

/// The length of the longest prefix of `s` that holds no structural
/// delimiter: the most a multi-character wildcard may consume of `s`.
pub open spec fn free_len(s: Seq<char>) -> nat
    decreases s.len(),
{
    if s.len() == 0 || is_delimiter(s[0]) {
        0
    } else {
        (1 + free_len(s.drop_first())) as nat
    }
}

/// The shape of one successful match attempt at a fixed position: how
/// many characters of the remaining input it consumes, and what each
/// wildcard captured, in pattern order.
pub struct MatchShape {
    pub len: nat,
    pub groups: Seq<Seq<char>>,
}

/// What the part sequence matches at the very start of `s`, under the
/// greedy policy: a specific character must stand there itself, a
/// single-character wildcard consumes exactly one character, and a
/// multi-character wildcard consumes the longest delimiter-free run
/// that lets the remaining parts match. `None` when no split works.
pub open spec fn match_parts(parts: Seq<PatternPart>, s: Seq<char>) -> Option<MatchShape>
    decreases parts.len(), 0nat, 0nat,
{
    if parts.len() == 0 {
        Some(MatchShape { len: 0, groups: Seq::empty() })
    } else {
        match parts[0] {
            PatternPart::VerbatimChar(c) => if s.len() > 0 && s[0] == c {
                match match_parts(parts.drop_first(), s.drop_first()) {
                    Some(m) => Some(MatchShape { len: (m.len + 1) as nat, groups: m.groups }),
                    None => None,
                }
            } else {
                None
            },
            PatternPart::AnyCharacter => if s.len() > 0 {
                match match_parts(parts.drop_first(), s.drop_first()) {
                    Some(m) => Some(
                        MatchShape {
                            len: (m.len + 1) as nat,
                            groups: seq![seq![s[0]]] + m.groups,
                        },
                    ),
                    None => None,
                }
            } else {
                None
            },
            PatternPart::AnySequence => match_any_sequence(parts.drop_first(), s, free_len(s)),
        }
    }
}

/// The greedy choice for one multi-character wildcard standing before
/// `rest`: capture `k` characters of `s` if the remaining parts then
/// match, and otherwise retry with one character fewer.
pub open spec fn match_any_sequence(rest: Seq<PatternPart>, s: Seq<char>, k: nat) -> Option<
    MatchShape,
>
    recommends
        k <= s.len(),
    decreases rest.len(), 1nat, k,
{
    match match_parts(rest, s.skip(k as int)) {
        Some(m) => Some(
            MatchShape { len: (k + m.len) as nat, groups: seq![s.take(k as int)] + m.groups },
        ),
        None => if k == 0 {
            None
        } else {
            match_any_sequence(rest, s, (k - 1) as nat)
        },
    }
}

/// What the part sequence matches starting at character position `p` of `s`.
pub open spec fn match_at(parts: Seq<PatternPart>, s: Seq<char>, p: int) -> Option<MatchShape> {
    match_parts(parts, s.skip(p))
}

/// Whether the part sequence matches starting at character position `p` of `s`.
pub open spec fn matches_at(parts: Seq<PatternPart>, s: Seq<char>, p: int) -> bool {
    0 <= p <= s.len() && match_at(parts, s, p) is Some
}

/// Whether `p` is the leftmost character position of `s` at which the
/// part sequence matches.
pub open spec fn is_leftmost_match(parts: Seq<PatternPart>, s: Seq<char>, p: int) -> bool {
    matches_at(parts, s, p) && (forall|q: int| 0 <= q < p ==> !matches_at(parts, s, q))
}

/// No structural delimiter stands in the longest delimiter-free prefix.
pub proof fn lemma_free_len_le(s: Seq<char>)
    ensures
        free_len(s) <= s.len(),
    decreases s.len(),
{
    if s.len() == 0 || is_delimiter(s[0]) {
    } else {
        lemma_free_len_le(s.drop_first());
    }
}

/// The longest delimiter-free prefix is pinned down by its two sides:
/// nothing in it is a delimiter, and it ends at the end of `s` or at a
/// delimiter.
pub proof fn lemma_free_len_characterization(s: Seq<char>, k: nat)
    requires
        k <= s.len(),
        forall|j: int| 0 <= j < k ==> !is_delimiter(#[trigger] s[j]),
        k == s.len() || is_delimiter(s[k as int]),
    ensures
        free_len(s) == k,
    decreases s.len(),
{
    if s.len() == 0 {
    } else if is_delimiter(s[0]) {
        assert(k == 0);
    } else {
        assert(k >= 1);
        let t = s.drop_first();
        assert(forall|j: int| 0 <= j < k - 1 ==> !is_delimiter(#[trigger] t[j]));
        lemma_free_len_characterization(t, (k - 1) as nat);
    }
}

/// A successful match yields one captured group per wildcard part, and
/// never consumes more characters than the input holds.
pub proof fn lemma_match_shape(parts: Seq<PatternPart>, s: Seq<char>)
    ensures
        match_parts(parts, s) is Some ==> match_parts(parts, s).unwrap().groups.len()
            == wildcard_count(parts),
        match_parts(parts, s) is Some ==> match_parts(parts, s).unwrap().len <= s.len(),
    decreases parts.len(), 0nat, 0nat,
{
    if parts.len() == 0 {
    } else {
        match parts[0] {
            PatternPart::VerbatimChar(_) => {
                if s.len() > 0 {
                    lemma_match_shape(parts.drop_first(), s.drop_first());
                }
            },
            PatternPart::AnyCharacter => {
                if s.len() > 0 {
                    lemma_match_shape(parts.drop_first(), s.drop_first());
                }
            },
            PatternPart::AnySequence => {
                lemma_free_len_le(s);
                lemma_match_any_sequence_shape(parts.drop_first(), s, free_len(s));
            },
        }
    }
}

/// Runs the parts from index `pi` on against the characters from index
/// `ci` on, backtracking greedily, and reports the character index just
/// past the consumed span together with the character range of each
/// captured group, exactly as [`match_parts`] describes.
pub fn match_from(parts: &Vec<PatternPart>, pi: usize, chars: &Vec<char>, ci: usize) -> (r: Option<
    (usize, Vec<(usize, usize)>),
>)
    requires
        pi <= parts@.len(),
        ci <= chars@.len(),
    ensures
        (match r {
            None => match_at(parts@.skip(pi as int), chars@, ci as int) is None,
            Some(res) => {
                let shape = match_at(parts@.skip(pi as int), chars@, ci as int).unwrap();
                &&& match_at(parts@.skip(pi as int), chars@, ci as int) is Some
                &&& ci <= res.0 <= chars@.len()
                &&& res.0 - ci == shape.len
                &&& res.1@.len() == shape.groups.len()
                &&& forall|g: int|
                    0 <= g < res.1@.len() ==> ci <= (#[trigger] res.1@[g]).0 <= res.1@[g].1
                        <= chars@.len() && shape.groups[g] == chars@.subrange(
                        res.1@[g].0 as int,
                        res.1@[g].1 as int,
                    )
            },
        }),
    decreases parts@.len() - pi,
{
    let ghost sp = parts@.skip(pi as int);
    let ghost ss = chars@.skip(ci as int);
    if pi == parts.len() {
        proof {
            assert(sp =~= Seq::<PatternPart>::empty());
        }
        return Some((ci, Vec::new()));
    }
    proof {
        assert(sp[0] == parts@[pi as int]);
        assert(sp.drop_first() =~= parts@.skip(pi + 1));
    }
    match parts[pi] {
        PatternPart::VerbatimChar(c) => {
            if ci < chars.len() && chars[ci] == c {
                proof {
                    assert(ss[0] == chars@[ci as int]);
                    assert(ss.drop_first() =~= chars@.skip(ci + 1));
                }
                match match_from(parts, pi + 1, chars, ci + 1) {
                    Some(res) => Some(res),
                    None => None,
                }
            } else {
                proof {
                    if ci < chars@.len() {
                        assert(ss[0] == chars@[ci as int]);
                    } else {
                        assert(ss.len() == 0);
                    }
                }
                None
            }
        },
        PatternPart::AnyCharacter => {
            if ci < chars.len() {
                proof {
                    assert(ss[0] == chars@[ci as int]);
                    assert(ss.drop_first() =~= chars@.skip(ci + 1));
                }
                match match_from(parts, pi + 1, chars, ci + 1) {
                    Some(res) => {
                        let end = res.0;
                        let mut groups = res.1;
                        groups.insert(0, (ci, ci + 1));
                        proof {
                            assert(chars@.subrange(ci as int, ci + 1) =~= seq![chars@[ci as int]]);
                            let inner = match_at(parts@.skip(pi + 1), chars@, ci + 1).unwrap();
                            assert(groups@[0] == (ci, (ci + 1) as usize));
                            assert(forall|g: int|
                                1 <= g < groups@.len() ==> #[trigger] groups@[g] == res.1@[g - 1]);
                            let shape = match_at(sp, chars@, ci as int).unwrap();
                            assert(shape.groups =~= seq![seq![ss[0]]] + inner.groups);
                        }
                        Some((end, groups))
                    },
                    None => None,
                }
            } else {
                proof {
                    assert(ss.len() == 0);
                }
                None
            }
        },
        PatternPart::AnySequence => {
            let ghost rp = parts@.skip(pi + 1);
            // The farthest character a capture starting at `ci` may reach.
            let mut limit: usize = ci;
            while limit < chars.len() && !delimiter(chars[limit])
                invariant
                    ci <= limit <= chars@.len(),
                    forall|j: int| ci <= j < limit ==> !is_delimiter(#[trigger] chars@[j]),
                decreases chars@.len() - limit,
            {
                limit = limit + 1;
            }
            proof {
                assert(forall|j: int|
                    0 <= j < limit - ci ==> #[trigger] ss[j] == chars@[ci + j]);
                if (limit as int) < chars@.len() {
                    assert(ss[limit - ci] == chars@[limit as int]);
                }
                lemma_free_len_characterization(ss, (limit - ci) as nat);
            }
            let pi1: usize = pi + 1;
            let mut k: usize = limit;
            loop
                invariant
                    pi < parts@.len(),
                    pi1 == pi + 1,
                    ci <= k <= limit <= chars@.len(),
                    sp == parts@.skip(pi as int),
                    ss == chars@.skip(ci as int),
                    rp == parts@.skip(pi + 1),
                    sp[0] == parts@[pi as int],
                    parts@[pi as int] is AnySequence,
                    sp.drop_first() == rp,
                    free_len(ss) == limit - ci,
                    match_any_sequence(rp, ss, free_len(ss)) == match_any_sequence(
                        rp,
                        ss,
                        (k - ci) as nat,
                    ),
                decreases k,
            {
                proof {
                    assert(ss.skip(k - ci) =~= chars@.skip(k as int));
                }
                match match_from(parts, pi1, chars, k) {
                    Some(res) => {
                        let end = res.0;
                        let mut groups = res.1;
                        groups.insert(0, (ci, k));
                        proof {
                            let inner = match_at(rp, chars@, k as int).unwrap();
                            assert(ss.take(k - ci) =~= chars@.subrange(ci as int, k as int));
                            assert(groups@[0] == (ci, k));
                            assert(forall|g: int|
                                1 <= g < groups@.len() ==> #[trigger] groups@[g] == res.1@[g - 1]);
                            let shape = match_at(sp, chars@, ci as int).unwrap();
                            assert(shape.groups =~= seq![ss.take(k - ci)] + inner.groups);
                        }
                        return Some((end, groups));
                    },
                    None => {
                        if k == ci {
                            return None;
                        }
                        k = k - 1;
                    },
                }
            }
        },
    }
}

/// Companion of [`lemma_match_shape`] for the greedy multi-character step.
pub proof fn lemma_match_any_sequence_shape(rest: Seq<PatternPart>, s: Seq<char>, k: nat)
    requires
        k <= s.len(),
    ensures
        match_any_sequence(rest, s, k) is Some ==> match_any_sequence(rest, s, k).unwrap().groups.len()
            == 1 + wildcard_count(rest),
        match_any_sequence(rest, s, k) is Some ==> match_any_sequence(rest, s, k).unwrap().len
            <= s.len(),
    decreases rest.len(), 1nat, k,
{
    lemma_match_shape(rest, s.skip(k as int));
    if match_parts(rest, s.skip(k as int)) is None && k > 0 {
        lemma_match_any_sequence_shape(rest, s, (k - 1) as nat);
    }
}

} // verus!
