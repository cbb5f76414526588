use vstd::prelude::*;
use vstd::string::StrSliceExecFns;
use vstd::utf8::encode_utf8;
use crate::parts::PatternPart;
use crate::parts::PatternCreationError;
use crate::parts::parse_parts;
use crate::parts::has_adjacent_any_sequences;
use crate::parts::wildcard_count;
use crate::parts::parse_pattern_text;
use crate::parts::check_adjacent_any_sequences;
use crate::matching::match_at;
use crate::matching::matches_at;
use crate::matching::is_leftmost_match;
use crate::matching::match_from;
use crate::matching::lemma_match_shape;
use crate::text::chars_of;
use crate::text::byte_index;
use crate::text::byte_index_of;
use crate::text::lemma_byte_index_monotone;

verus! {

/// The result of a successful search: the matched span as inclusive
/// byte offsets into the searched string, and one captured substring
/// per wildcard of the pattern, in the order the wildcards appear.
#[derive(Debug, PartialEq, Eq)]
pub struct Match {
    /// Inclusive byte offset of the first byte of the matched span.
    pub beginning_byte_index: usize,
    /// Inclusive byte offset of the last byte of the matched span.
    /// When the matched span is empty (a pattern of multi-character
    /// wildcards only, capturing nothing), it equals
    /// `beginning_byte_index`.
    pub end_byte_index: usize,
    /// One captured substring per wildcard: a single-character
    /// wildcard's group holds exactly that character, a multi-character
    /// wildcard's group holds the captured run, possibly empty.
    pub groups: Vec<String>,
}

/// What a correct [`Match`] reports for a match at character position
/// `p` of `s`: the byte offsets of the span that the match shape
/// consumes, and the captured groups, character for character.
pub open spec fn match_reported(parts: Seq<PatternPart>, s: Seq<char>, p: int, m: Match) -> bool {
    let shape = match_at(parts, s, p).unwrap();
    &&& match_at(parts, s, p) is Some
    &&& m.beginning_byte_index == byte_index_of(s, p)
    &&& m.end_byte_index == (if shape.len == 0 {
        byte_index_of(s, p)
    } else {
        byte_index_of(s, p + shape.len) - 1
    })
    &&& m.groups@.len() == shape.groups.len()
    &&& (forall|g: int| 0 <= g < shape.groups.len() ==> (#[trigger] m.groups@[g])@ == shape.groups[g])
}

/// A compiled, immutable pattern. Its view is the part sequence that
/// its pattern text denotes.
pub struct Pattern {
    parts: Vec<PatternPart>,
}

impl View for Pattern {
    type V = Seq<PatternPart>;

    closed spec fn view(&self) -> Seq<PatternPart> {
        self.parts@
    }
}

impl Pattern {
    /// Compiles pattern text into a pattern. This fails exactly when
    /// the text denotes two directly adjacent multi-character
    /// wildcards, the one structurally invalid form.
    pub fn new(pattern_text: &str) -> (r: Result<Pattern, PatternCreationError>)
        ensures
            r is Err <==> has_adjacent_any_sequences(parse_parts(pattern_text@)),
            r is Err ==> r->Err_0 is TwoAdjacentAnySequences,
            r is Ok ==> r->Ok_0@ == parse_parts(pattern_text@),
    {
        let chars = chars_of(pattern_text);
        let parts = parse_pattern_text(&chars);
        if check_adjacent_any_sequences(&parts) {
            Err(PatternCreationError::TwoAdjacentAnySequences)
        } else {
            Ok(Pattern { parts })
        }
    }

    /// Finds the leftmost character position of `string` at which the
    /// pattern matches, and reports the matched span's inclusive byte
    /// offsets together with every wildcard's capture. Returns `None`
    /// exactly when no position of `string` admits a match.
    pub fn first_match(&self, string: &str) -> (r: Option<Match>)
        ensures
            (match r {
                None => forall|q: int| 0 <= q <= string@.len() ==> !matches_at(self@, string@, q),
                Some(m) => exists|p: int|
                    #[trigger] is_leftmost_match(self@, string@, p) && match_reported(
                        self@,
                        string@,
                        p,
                        m,
                    ),
            }),
            r is Some ==> r.unwrap().groups@.len() == wildcard_count(self@),
            r is Some ==> r.unwrap().beginning_byte_index <= r.unwrap().end_byte_index,
    {
        let chars = chars_of(string);
        let n = chars.len();
        let total = string.as_bytes().len();
        let mut p: usize = 0;
        loop
            invariant
                n == chars@.len(),
                chars@ == string@,
                p <= n,
                total == encode_utf8(string@).len(),
                forall|q: int| 0 <= q < p ==> !matches_at(self@, string@, q),
            decreases n - p,
        {
            proof {
                assert(self.parts@.skip(0) =~= self@);
            }
            match match_from(&self.parts, 0, &chars, p) {
                Some(res) => {
                    proof {
                        lemma_match_shape(self@, chars@.skip(p as int));
                    }
                    let ghost shape = match_at(self@, string@, p as int).unwrap();
                    let end_ci = res.0;
                    let ranges = res.1;
                    let mut groups: Vec<String> = Vec::new();
                    let mut gi: usize = 0;
                    while gi < ranges.len()
                        invariant
                            gi <= ranges@.len(),
                            groups@.len() == gi,
                            chars@ == string@,
                            ranges@.len() == shape.groups.len(),
                            forall|g: int|
                                0 <= g < ranges@.len() ==> (#[trigger] ranges@[g]).0
                                    <= ranges@[g].1 <= chars@.len() && shape.groups[g]
                                    == chars@.subrange(ranges@[g].0 as int, ranges@[g].1 as int),
                            forall|t: int|
                                0 <= t < gi ==> (#[trigger] groups@[t])@ == shape.groups[t],
                        decreases ranges@.len() - gi,
                    {
                        let rg = ranges[gi];
                        let piece = string.substring_char(rg.0, rg.1);
                        let owned = piece.to_owned();
                        groups.push(owned);
                        gi = gi + 1;
                    }
                    let begin = byte_index(&chars, p, total);
                    let end = if end_ci == p {
                        begin
                    } else {
                        proof {
                            lemma_byte_index_monotone(chars@, p as int, end_ci as int);
                        }
                        byte_index(&chars, end_ci, total) - 1
                    };
                    let m = Match { beginning_byte_index: begin, end_byte_index: end, groups };
                    proof {
                        assert(is_leftmost_match(self@, string@, p as int));
                        assert(match_reported(self@, string@, p as int, m));
                    }
                    return Some(m);
                },
                None => {
                    if p == n {
                        return None;
                    }
                    p = p + 1;
                },
            }
        }
    }
}

/// An indexed list of captured substrings in which a missing entry
/// reads as the empty string, so that a lookup never fails.
pub struct Matches {
    contents: Vec<String>,
}

impl View for Matches {
    type V = Seq<Seq<char>>;

    closed spec fn view(&self) -> Seq<Seq<char>> {
        self.contents.deep_view()
    }
}

impl Matches {
    /// Wraps captured substrings for lookup by wildcard position.
    pub fn new(contents: Vec<String>) -> (r: Matches)
        ensures
            r@ == contents.deep_view(),
    {
        Matches { contents }
    }

    /// The capture at `index`, or the empty string where there is none.
    pub fn get(&self, index: usize) -> (r: &str)
        ensures
            index < self@.len() ==> r@ == self@[index as int],
            index >= self@.len() ==> r@ == Seq::<char>::empty(),
    {
        if index < self.contents.len() {
            let s: &String = &self.contents[index];
            s.as_str()
        } else {
            let empty = "";
            proof {
                reveal_strlit("");
                assert(empty@ =~= Seq::<char>::empty());
            }
            empty
        }
    }
}

} // verus!
