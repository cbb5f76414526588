use vstd::prelude::*;

verus! {

/// One structured element of a pattern: a specific character, a
/// single-character wildcard (`.`), or a multi-character wildcard (`*`).
#[derive(Clone, Copy, Debug, PartialEq, Eq)]
pub enum PatternPart {
    VerbatimChar(char),
    AnyCharacter,
    AnySequence,
}

/// The one way pattern construction can fail: two multi-character
/// wildcards stand next to each other with nothing between them, so
/// there is no unambiguous way to split what each should consume.
#[derive(Clone, Copy, Debug, PartialEq, Eq)]
pub enum PatternCreationError {
    TwoAdjacentAnySequences,
}

/// The three characters that carry special meaning in pattern text.
pub open spec fn is_special(c: char) -> bool {
    c == '*' || c == '.' || c == '\\'
}

/// The part standing for one specific character.
pub open spec fn verbatim_of(c: char) -> PatternPart {
    PatternPart::VerbatimChar(c)
}

/// The part sequence that pattern text denotes, read left to right:
/// `*` is a multi-character wildcard, `.` a single-character wildcard,
/// and a backslash followed by one of the three special characters
/// stands for that character verbatim. A backslash followed by anything
/// else (or by the end of the text) stands for itself, and the following
/// character is examined on its own.
pub open spec fn parse_parts(s: Seq<char>) -> Seq<PatternPart>
    decreases s.len(),
{
    if s.len() == 0 {
        Seq::empty()
    } else if s[0] == '*' {
        seq![PatternPart::AnySequence] + parse_parts(s.drop_first())
    } else if s[0] == '.' {
        seq![PatternPart::AnyCharacter] + parse_parts(s.drop_first())
    } else if s[0] == '\\' && s.len() >= 2 && is_special(s[1]) {
        seq![verbatim_of(s[1])] + parse_parts(s.subrange(2, s.len() as int))
    } else {
        seq![verbatim_of(s[0])] + parse_parts(s.drop_first())
    }
}

/// Whether two multi-character wildcards stand directly next to each
/// other somewhere in the sequence.
pub open spec fn has_adjacent_any_sequences(parts: Seq<PatternPart>) -> bool {
    exists|i: int|
        0 <= i && i + 1 < parts.len() && #[trigger] parts[i] is AnySequence && parts[i + 1]
            is AnySequence
}

/// How many wildcard parts (single- or multi-character) the sequence
/// holds; a successful match yields exactly one captured group per
/// wildcard, in this order.
pub open spec fn wildcard_count(parts: Seq<PatternPart>) -> nat
    decreases parts.len(),
{
    if parts.len() == 0 {
        0
    } else {
        (if parts[0] is VerbatimChar {
            0nat
        } else {
            1nat
        }) + wildcard_count(parts.drop_first())
    }
}

/// Turns pattern text, given as its characters, into the part sequence
/// that [`parse_parts`] describes.
pub fn parse_pattern_text(chars: &Vec<char>) -> (parts: Vec<PatternPart>)
    ensures
        parts@ == parse_parts(chars@),
{
    let mut parts: Vec<PatternPart> = Vec::new();
    let mut i: usize = 0;
    proof {
        assert(chars@.skip(0) =~= chars@);
        assert(parts@ + parse_parts(chars@) =~= parse_parts(chars@));
    }
    while i < chars.len()
        invariant
            i <= chars@.len(),
            parse_parts(chars@) == parts@ + parse_parts(chars@.skip(i as int)),
        decreases chars@.len() - i,
    {
        let ghost prev = parts@;
        let ghost rest = chars@.skip(i as int);
        proof {
            assert(rest[0] == chars@[i as int]);
        }
        let c = chars[i];
        if c == '*' {
            parts.push(PatternPart::AnySequence);
            proof {
                assert(rest.drop_first() =~= chars@.skip(i + 1));
                lemma_parse_advance(chars@, i as int, prev, PatternPart::AnySequence, 1);
            }
            i = i + 1;
        } else if c == '.' {
            parts.push(PatternPart::AnyCharacter);
            proof {
                assert(rest.drop_first() =~= chars@.skip(i + 1));
                lemma_parse_advance(chars@, i as int, prev, PatternPart::AnyCharacter, 1);
            }
            i = i + 1;
        } else if c == '\\' && i + 1 < chars.len() && (chars[i + 1] == '*' || chars[i + 1] == '.'
            || chars[i + 1] == '\\') {
            parts.push(PatternPart::VerbatimChar(chars[i + 1]));
            proof {
                assert(rest[1] == chars@[i + 1]);
                assert(rest.subrange(2, rest.len() as int) =~= chars@.skip(i + 2));
                lemma_parse_advance(
                    chars@,
                    i as int,
                    prev,
                    PatternPart::VerbatimChar(chars@[i + 1]),
                    2,
                );
            }
            i = i + 2;
        } else {
            parts.push(PatternPart::VerbatimChar(c));
            proof {
                if i + 1 < chars@.len() {
                    assert(rest[1] == chars@[i + 1]);
                }
                assert(rest.drop_first() =~= chars@.skip(i + 1));
                lemma_parse_advance(
                    chars@,
                    i as int,
                    prev,
                    PatternPart::VerbatimChar(chars@[i as int]),
                    1,
                );
            }
            i = i + 1;
        }
    }
    proof {
        assert(chars@.skip(i as int) =~= Seq::<char>::empty());
        assert(parts@ + Seq::<PatternPart>::empty() =~= parts@);
    }
    parts
}

/// One step of the parser: if the suffix of the text at `i` parses to
/// `p` followed by the parse of the suffix at `i + step`, then moving
/// `p` into the accumulator keeps the loop's running equation.
proof fn lemma_parse_advance(
    chars: Seq<char>,
    i: int,
    prev: Seq<PatternPart>,
    p: PatternPart,
    step: int,
)
    requires
        0 <= i,
        i + step <= chars.len(),
        parse_parts(chars.skip(i)) == seq![p] + parse_parts(chars.skip(i + step)),
        parse_parts(chars) == prev + parse_parts(chars.skip(i)),
    ensures
        parse_parts(chars) == prev.push(p) + parse_parts(chars.skip(i + step)),
{
    assert(prev.push(p) + parse_parts(chars.skip(i + step)) =~= prev + (seq![p] + parse_parts(
        chars.skip(i + step),
    )));
}

/// Whether the part sequence holds two directly adjacent multi-character
/// wildcards.
pub fn check_adjacent_any_sequences(parts: &Vec<PatternPart>) -> (found: bool)
    ensures
        found == has_adjacent_any_sequences(parts@),
{
    let mut i: usize = 1;
    while i < parts.len()
        invariant
            1 <= i,
            forall|j: int|
                0 <= j && j < i - 1 ==> !(#[trigger] parts@[j] is AnySequence && parts@[j + 1]
                    is AnySequence),
        decreases parts@.len() - i,
    {
        if matches!(parts[i - 1], PatternPart::AnySequence) && matches!(
            parts[i],
            PatternPart::AnySequence,
        ) {
            proof {
                assert(parts@[i - 1] is AnySequence && parts@[i - 1 + 1] is AnySequence);
            }
            return true;
        }
        i = i + 1;
    }
    false
}

} // verus!
