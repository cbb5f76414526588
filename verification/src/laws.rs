use vstd::prelude::*;
use crate::parts::PatternPart;
use crate::parts::is_special;
use crate::parts::verbatim_of;
use crate::parts::parse_parts;
use crate::parts::has_adjacent_any_sequences;
use crate::parts::wildcard_count;
use crate::matching::MatchShape;
use crate::matching::is_delimiter;
use crate::matching::free_len;
use crate::matching::lemma_free_len_le;
use crate::matching::match_parts;
use crate::matching::match_any_sequence;
use crate::matching::matches_at;

verus! {

/// Whether every part is a literal character, so that the pattern holds
/// no wildcard at all.
pub open spec fn all_literals(parts: Seq<PatternPart>) -> bool {
    forall|i: int| 0 <= i < parts.len() ==> #[trigger] parts[i] is VerbatimChar
}

/// The wildcard parts of the sequence, in order: the part that each
/// captured group belongs to.
pub open spec fn wildcard_kinds(parts: Seq<PatternPart>) -> Seq<PatternPart>
    decreases parts.len(),
{
    if parts.len() == 0 {
        Seq::empty()
    } else if parts[0] is VerbatimChar {
        wildcard_kinds(parts.drop_first())
    } else {
        seq![parts[0]] + wildcard_kinds(parts.drop_first())
    }
}

/// The part sequence that spells out the given text literally.
pub open spec fn literal_parts_of(text: Seq<char>) -> Seq<PatternPart>
    decreases text.len(),
{
    if text.len() == 0 {
        Seq::empty()
    } else {
        seq![verbatim_of(text[0])] + literal_parts_of(text.drop_first())
    }
}

/// Spelling a text out literally gives one part per character.
proof fn lemma_literal_parts_len(text: Seq<char>)
    ensures
        literal_parts_of(text).len() == text.len(),
    decreases text.len(),
{
    if text.len() > 0 {
        lemma_literal_parts_len(text.drop_first());
        assert(literal_parts_of(text) == seq![verbatim_of(text[0])] + literal_parts_of(
            text.drop_first(),
        ));
    }
}

/// One captured group per wildcard and one wildcard part per group:
/// the two counts that the matcher's contracts use agree.
pub proof fn lemma_wildcard_kinds_count(parts: Seq<PatternPart>)
    ensures
        wildcard_kinds(parts).len() == wildcard_count(parts),
    decreases parts.len(),
{
    if parts.len() > 0 {
        lemma_wildcard_kinds_count(parts.drop_first());
    }
}

/// Text without special characters parses to its characters one by one,
/// whatever follows it.
proof fn lemma_parse_literal_prefix(pre: Seq<char>, rest: Seq<char>)
    requires
        forall|i: int| 0 <= i < pre.len() ==> !is_special(#[trigger] pre[i]),
    ensures
        parse_parts(pre + rest) == literal_parts_of(pre) + parse_parts(rest),
    decreases pre.len(),
{
    if pre.len() == 0 {
        assert(pre + rest =~= rest);
        assert(literal_parts_of(pre) + parse_parts(rest) =~= parse_parts(rest));
    } else {
        let t = pre + rest;
        assert(t[0] == pre[0]);
        assert(!is_special(pre[0]));
        assert(t.drop_first() =~= pre.drop_first() + rest);
        lemma_parse_literal_prefix(pre.drop_first(), rest);
        assert(parse_parts(t) == seq![verbatim_of(t[0])] + parse_parts(t.drop_first()));
        assert(parse_parts(t.drop_first()) == literal_parts_of(pre.drop_first()) + parse_parts(
            rest,
        ));
        assert(literal_parts_of(pre) == seq![verbatim_of(pre[0])] + literal_parts_of(
            pre.drop_first(),
        ));
        assert(seq![verbatim_of(pre[0])] + (literal_parts_of(pre.drop_first()) + parse_parts(
            rest,
        )) =~= (seq![verbatim_of(pre[0])] + literal_parts_of(pre.drop_first())) + parse_parts(
            rest,
        ));
    }
}

/// Law: pattern text of the shape `<prefix>**<suffix>`, with two
/// directly adjacent multi-character wildcards, always denotes an
/// adjacent pair of multi-character wildcards, so compiling it fails,
/// whatever the suffix — the prefix only has to stay out of the three
/// special characters, so that it cannot swallow the first `*`.
pub proof fn lemma_adjacent_wildcards_rejected(pre: Seq<char>, suf: Seq<char>)
    requires
        forall|i: int| 0 <= i < pre.len() ==> !is_special(#[trigger] pre[i]),
    ensures
        has_adjacent_any_sequences(parse_parts(pre + seq!['*', '*'] + suf)),
{
    let stars = seq!['*', '*'];
    let text = pre + stars + suf;
    assert(text =~= pre + (stars + suf));
    lemma_parse_literal_prefix(pre, stars + suf);
    lemma_literal_parts_len(pre);
    let lits = literal_parts_of(pre);
    let u = stars + suf;
    assert(u[0] == '*');
    assert(u.drop_first() =~= seq!['*'] + suf);
    let v = seq!['*'] + suf;
    assert(v[0] == '*');
    assert(v.drop_first() =~= suf);
    assert(parse_parts(u) == seq![PatternPart::AnySequence] + parse_parts(u.drop_first()));
    assert(parse_parts(v) == seq![PatternPart::AnySequence] + parse_parts(suf));
    let inner = seq![PatternPart::AnySequence] + (seq![PatternPart::AnySequence] + parse_parts(
        suf,
    ));
    let parsed = parse_parts(text);
    assert(parsed == lits + inner);
    let w = pre.len() as int;
    assert(lits.len() == pre.len());
    assert(parsed[w] == inner[0]);
    assert(parsed[w + 1] == inner[1]);
    assert(inner[0] is AnySequence);
    assert(inner[1] == (seq![PatternPart::AnySequence] + parse_parts(suf))[0]);
    assert(parsed[w] is AnySequence);
    assert(parsed[w + 1] is AnySequence);
}

/// Law: a pattern of literal characters only matches at the start of
/// `s` exactly when `s` begins with its text, character for character;
/// such a match consumes exactly that text and captures nothing.
pub proof fn lemma_literal_only_match(parts: Seq<PatternPart>, s: Seq<char>)
    requires
        all_literals(parts),
    ensures
        match_parts(parts, s) is Some <==> (parts.len() <= s.len() && (forall|i: int|
            0 <= i < parts.len() ==> s[i] == #[trigger] parts[i]->VerbatimChar_0)),
        match_parts(parts, s) is Some ==> match_parts(parts, s).unwrap() == (MatchShape {
            len: parts.len(),
            groups: Seq::empty(),
        }),
    decreases parts.len(),
{
    if parts.len() == 0 {
    } else {
        assert(parts[0] is VerbatimChar);
        let c = parts[0]->VerbatimChar_0;
        if s.len() > 0 && s[0] == c {
            let pd = parts.drop_first();
            let sd = s.drop_first();
            lemma_literal_only_match(pd, sd);
            assert(forall|i: int| 0 <= i < pd.len() ==> #[trigger] pd[i] == parts[i + 1]);
            assert(forall|i: int| 0 <= i < sd.len() ==> #[trigger] sd[i] == s[i + 1]);
            if match_parts(parts, s) is Some {
                assert forall|i: int| 0 <= i < parts.len() implies s[i] == #[trigger] parts[i]->VerbatimChar_0 by {
                    if i > 0 {
                        assert(sd[i - 1] == pd[i - 1]->VerbatimChar_0);
                    }
                }
            } else {
                if parts.len() <= s.len() && (forall|i: int|
                    0 <= i < parts.len() ==> s[i] == #[trigger] parts[i]->VerbatimChar_0) {
                    assert forall|i: int| 0 <= i < pd.len() implies sd[i] == #[trigger] pd[i]->VerbatimChar_0 by {
                        assert(s[i + 1] == parts[i + 1]->VerbatimChar_0);
                    }
                    assert(false);
                }
            }
        } else {
            assert(match_parts(parts, s) is None);
            if parts.len() <= s.len() && (forall|i: int|
                0 <= i < parts.len() ==> s[i] == #[trigger] parts[i]->VerbatimChar_0) {
                assert(s[0] == parts[0]->VerbatimChar_0);
                assert(false);
            }
        }
    }
}

/// Law: a pattern of literal characters only matches at position `p`
/// of `s` exactly when its text stands there, character for character:
/// such a pattern matches only its exact occurrences, nowhere else.
pub proof fn lemma_literal_only_match_at(parts: Seq<PatternPart>, s: Seq<char>, p: int)
    requires
        all_literals(parts),
        0 <= p <= s.len(),
    ensures
        matches_at(parts, s, p) <==> (p + parts.len() <= s.len() && (forall|i: int|
            0 <= i < parts.len() ==> s[p + i] == #[trigger] parts[i]->VerbatimChar_0)),
{
    lemma_literal_only_match(parts, s.skip(p));
    if match_parts(parts, s.skip(p)) is Some {
        assert forall|i: int| 0 <= i < parts.len() implies s[p + i] == #[trigger] parts[i]->VerbatimChar_0 by {
            assert(s.skip(p)[i] == parts[i]->VerbatimChar_0);
        }
    } else {
        if p + parts.len() <= s.len() && (forall|i: int|
            0 <= i < parts.len() ==> s[p + i] == #[trigger] parts[i]->VerbatimChar_0) {
            assert forall|i: int|
                0 <= i < parts.len() implies s.skip(p)[i] == #[trigger] parts[i]->VerbatimChar_0 by {
                assert(s[p + i] == parts[i]->VerbatimChar_0);
            }
            assert(false);
        }
    }
}

/// Nothing within the longest delimiter-free prefix is a delimiter.
proof fn lemma_free_prefix(s: Seq<char>)
    ensures
        forall|j: int| 0 <= j < free_len(s) ==> !is_delimiter(#[trigger] s[j]),
    decreases s.len(),
{
    lemma_free_len_le(s);
    if s.len() == 0 || is_delimiter(s[0]) {
    } else {
        lemma_free_prefix(s.drop_first());
        lemma_free_len_le(s.drop_first());
        assert forall|j: int| 0 <= j < free_len(s) implies !is_delimiter(s[j]) by {
            if j > 0 {
                assert(s.drop_first()[j - 1] == s[j]);
            }
        }
    }
}

/// Law: each captured group belongs to the wildcard part in the same
/// position: a single-character wildcard always captures exactly one
/// character, and a multi-character wildcard's capture never holds a
/// structural delimiter.
pub proof fn lemma_group_shapes(parts: Seq<PatternPart>, s: Seq<char>)
    ensures
        match_parts(parts, s) is Some ==> {
            let m = match_parts(parts, s).unwrap();
            &&& m.groups.len() == wildcard_kinds(parts).len()
            &&& (forall|g: int|
                0 <= g < m.groups.len() && wildcard_kinds(parts)[g] is AnyCharacter
                    ==> (#[trigger] m.groups[g]).len() == 1)
            &&& (forall|g: int, j: int|
                0 <= g < m.groups.len() && wildcard_kinds(parts)[g] is AnySequence && 0 <= j
                    < m.groups[g].len() ==> !is_delimiter(#[trigger] m.groups[g][j]))
        },
    decreases parts.len(), 0nat, 0nat,
{
    if parts.len() == 0 {
    } else {
        match parts[0] {
            PatternPart::VerbatimChar(_) => {
                if s.len() > 0 {
                    lemma_group_shapes(parts.drop_first(), s.drop_first());
                }
            },
            PatternPart::AnyCharacter => {
                if s.len() > 0 {
                    lemma_group_shapes(parts.drop_first(), s.drop_first());
                    if match_parts(parts, s) is Some {
                        let inner = match_parts(parts.drop_first(), s.drop_first()).unwrap();
                        assert(wildcard_kinds(parts) =~= seq![parts[0]] + wildcard_kinds(
                            parts.drop_first(),
                        ));
                        let m = match_parts(parts, s).unwrap();
                        assert(m.groups[0].len() == 1);
                        assert(forall|g: int|
                            1 <= g < m.groups.len() ==> #[trigger] m.groups[g] == inner.groups[g
                                - 1]);
                    }
                }
            },
            PatternPart::AnySequence => {
                lemma_free_prefix(s);
                lemma_free_len_le(s);
                lemma_group_shapes_any_sequence(parts.drop_first(), s, free_len(s));
                if match_parts(parts, s) is Some {
                    assert(wildcard_kinds(parts) =~= seq![parts[0]] + wildcard_kinds(
                        parts.drop_first(),
                    ));
                }
            },
        }
    }
}

/// Companion of [`lemma_group_shapes`] for the greedy multi-character
/// step: its own capture stays within the delimiter-free prefix.
proof fn lemma_group_shapes_any_sequence(rest: Seq<PatternPart>, s: Seq<char>, k: nat)
    requires
        k <= free_len(s),
        k <= s.len(),
    ensures
        match_any_sequence(rest, s, k) is Some ==> {
            let m = match_any_sequence(rest, s, k).unwrap();
            &&& m.groups.len() == 1 + wildcard_kinds(rest).len()
            &&& (forall|j: int| 0 <= j < m.groups[0].len() ==> !is_delimiter(m.groups[0][j]))
            &&& (forall|g: int|
                1 <= g < m.groups.len() && wildcard_kinds(rest)[g - 1] is AnyCharacter
                    ==> (#[trigger] m.groups[g]).len() == 1)
            &&& (forall|g: int, j: int|
                1 <= g < m.groups.len() && wildcard_kinds(rest)[g - 1] is AnySequence && 0 <= j
                    < m.groups[g].len() ==> !is_delimiter(#[trigger] m.groups[g][j]))
        },
    decreases rest.len(), 1nat, k,
{
    lemma_free_prefix(s);
    lemma_group_shapes(rest, s.skip(k as int));
    if match_parts(rest, s.skip(k as int)) is Some {
        let inner = match_parts(rest, s.skip(k as int)).unwrap();
        let m = match_any_sequence(rest, s, k).unwrap();
        assert(m.groups[0] == s.take(k as int));
        assert(forall|j: int| 0 <= j < k ==> s.take(k as int)[j] == #[trigger] s[j]);
        assert(forall|j: int| 0 <= j < m.groups[0].len() ==> !is_delimiter(#[trigger] m.groups[0][j]));
        assert(forall|g: int| 1 <= g < m.groups.len() ==> #[trigger] m.groups[g] == inner.groups[g - 1]);
    } else {
        if k > 0 {
            lemma_group_shapes_any_sequence(rest, s, (k - 1) as nat);
        }
    }
}

} // verus!
