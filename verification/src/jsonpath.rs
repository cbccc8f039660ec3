//! Deriving path segments from a JSONPath expression.
//!
//! Only plain object-member access and non-negative array indexing are
//! supported; wildcards, slices, filters, descendant operators and
//! multi-selector segments are rejected.  The JSONPath grammar itself is
//! handled by an external parser; this module classifies its output.

use jsonpath_rust::parser::model::{Segment, Selector};
use jsonpath_rust::parser::parse_json_path;
use vstd::prelude::*;
use vstd::string::StrSliceExecFns;

verus! {

/// One segment of a parsed JSONPath expression, as the external parser
/// reports it: a member name or index with its payload, or the bare kind of
/// an unsupported construct.
pub enum RawSegment {
    Name(String),
    Wildcard,
    Index(i64),
    Slice,
    Filter,
    Descendant,
    Selectors,
}

/// The segments the external JSONPath parser yields for an expression, if
/// it parses; the parse is a function of the expression alone.
pub uninterp spec fn jsonpath_segments_of(path: Seq<char>) -> Option<Seq<RawSegment>>;

/// Relies on `jsonpath_rust::parser::parse_json_path`: parses the
/// expression; each arm keeps one segment kind apart, moving its payload.
#[verifier::external_body]
fn parse_json_path_raw(path: &str) -> (r: Result<Vec<RawSegment>, String>)
    ensures
        match r {
            Ok(v) => jsonpath_segments_of(path@) == Some(v@),
            Err(_) => jsonpath_segments_of(path@) is None,
        },
{
    match parse_json_path(path) {
        Err(e) => Err(format!("{:?}", e)),
        Ok(q) => Ok(q.segments.into_iter().map(|s| match s {
            Segment::Descendant(_) => RawSegment::Descendant,
            Segment::Selectors(_) => RawSegment::Selectors,
            Segment::Selector(Selector::Name(n)) => RawSegment::Name(n),
            Segment::Selector(Selector::Wildcard) => RawSegment::Wildcard,
            Segment::Selector(Selector::Index(i)) => RawSegment::Index(i),
            Segment::Selector(Selector::Slice(_, _, _)) => RawSegment::Slice,
            Segment::Selector(Selector::Filter(_)) => RawSegment::Filter,
        }).collect()),
    }
}

/// Abstract form of a supported path segment.
#[verifier::ext_equal]
pub enum JsonPathSegmentV {
    Key(Seq<char>),
    Index(int),
}

/// A supported path segment: an object member name or an array index.
#[derive(Debug, Clone)]
pub enum JsonPathSegment {
    /// An object member access.
    Key(String),
    /// A non-negative array index access.
    Index(usize),
}

impl View for JsonPathSegment {
    type V = JsonPathSegmentV;

    open spec fn view(&self) -> JsonPathSegmentV {
        match self {
            JsonPathSegment::Key(s) => JsonPathSegmentV::Key(s@),
            JsonPathSegment::Index(i) => JsonPathSegmentV::Index(*i as int),
        }
    }
}

/// An error raised while deriving path segments.
#[derive(Debug)]
pub enum JsonPathParseError {
    /// The external parser rejected the expression; its message follows.
    ParseFailed(String),
    /// A descendant or multi-selector segment is not supported.
    UnsupportedSegmentType,
    /// A wildcard, slice, filter, negative or oversized index is not
    /// supported.
    UnsupportedSelectorType,
}

/// A member name with a matched pair of surrounding quotes removed.
pub open spec fn strip_quotes(name: Seq<char>) -> Seq<char> {
    if name.len() > 1 && ((name[0] == '\'' && name[name.len() - 1] == '\'') || (name[0] == '"'
        && name[name.len() - 1] == '"')) {
        name.subrange(1, name.len() - 1)
    } else {
        name
    }
}

/// What classifying the raw segments from position `i` on yields: member
/// names (their quotes stripped) and in-range indexes, or the error of the
/// first unsupported segment.
pub open spec fn convert_segments(segs: Seq<RawSegment>, i: int) -> Result<
    Seq<JsonPathSegmentV>,
    JsonPathParseError,
>
    decreases segs.len() - i,
{
    if i < 0 || i >= segs.len() {
        Ok(Seq::empty())
    } else {
        let head = match segs[i] {
            RawSegment::Name(n) => Ok(JsonPathSegmentV::Key(strip_quotes(n@))),
            RawSegment::Index(x) => if 0 <= x <= usize::MAX as int {
                Ok(JsonPathSegmentV::Index(x as int))
            } else {
                Err(JsonPathParseError::UnsupportedSelectorType)
            },
            RawSegment::Wildcard => Err(JsonPathParseError::UnsupportedSelectorType),
            RawSegment::Slice => Err(JsonPathParseError::UnsupportedSelectorType),
            RawSegment::Filter => Err(JsonPathParseError::UnsupportedSelectorType),
            RawSegment::Descendant => Err(JsonPathParseError::UnsupportedSegmentType),
            RawSegment::Selectors => Err(JsonPathParseError::UnsupportedSegmentType),
        };
        match head {
            Ok(h) => match convert_segments(segs, i + 1) {
                Ok(rest) => Ok(seq![h] + rest),
                Err(e) => Err(e),
            },
            Err(e) => Err(e),
        }
    }
}

/// Classifying with segments `pre` already produced.
pub open spec fn convert_cont(segs: Seq<RawSegment>, i: int, pre: Seq<JsonPathSegmentV>) -> Result<
    Seq<JsonPathSegmentV>,
    JsonPathParseError,
> {
    match convert_segments(segs, i) {
        Ok(rest) => Ok(pre + rest),
        Err(e) => Err(e),
    }
}

/// Classifying one more supported segment moves it into the prefix.
proof fn lemma_convert_cont_step(
    segs: Seq<RawSegment>,
    i: int,
    pre: Seq<JsonPathSegmentV>,
    h: JsonPathSegmentV,
)
    requires
        0 <= i < segs.len(),
        (match segs[i] {
            RawSegment::Name(n) => h == JsonPathSegmentV::Key(strip_quotes(n@)),
            RawSegment::Index(x) => 0 <= x <= usize::MAX as int && h == JsonPathSegmentV::Index(
                x as int,
            ),
            _ => false,
        }),
    ensures
        convert_cont(segs, i, pre) == convert_cont(segs, i + 1, pre.push(h)),
{
    match convert_segments(segs, i + 1) {
        Ok(rest) => {
            assert(convert_segments(segs, i) == Ok::<_, JsonPathParseError>(seq![h] + rest));
            assert(pre + (seq![h] + rest) =~= pre.push(h) + rest);
        },
        Err(e) => {
            assert(convert_segments(segs, i) == Err::<Seq<JsonPathSegmentV>, _>(e));
        },
    }
}

/// Removes a matched pair of surrounding quotes from a member name.
fn strip_name(name: &String) -> (r: String)
    ensures
        r@ == strip_quotes(name@),
{
    let s = name.as_str();
    let len = s.unicode_len();
    if len > 1 {
        let first = s.get_char(0);
        let last = s.get_char(len - 1);
        if (first == '\'' && last == '\'') || (first == '"' && last == '"') {
            return s.substring_char(1, len - 1).to_owned();
        }
    }
    name.clone()
}

/// Derives the path segments of a JSONPath expression.
///
/// Supports only object member access and non-negative array indexing, in
/// any combination; the first unsupported construct decides the error.
#[verifier::loop_isolation(false)]
pub fn parse(path: &str) -> (r: Result<Vec<JsonPathSegment>, JsonPathParseError>)
    ensures
        (match jsonpath_segments_of(path@) {
            None => r matches Err(JsonPathParseError::ParseFailed(_)),
            Some(raws) => match convert_segments(raws, 0) {
                Ok(v) => r matches Ok(rv) && rv@.map_values(
                    |seg: JsonPathSegment| seg@,
                ) == v,
                Err(e) => r matches Err(e2) && e2 == e,
            },
        }),
{
    let raws = match parse_json_path_raw(path) {
        Ok(raws) => raws,
        Err(msg) => {
            return Err(JsonPathParseError::ParseFailed(msg));
        },
    };
    let mut segments: Vec<JsonPathSegment> = Vec::new();
    let mut i: usize = 0;
    proof {
        assert(segments@.map_values(|seg: JsonPathSegment| seg@) =~= Seq::<
            JsonPathSegmentV,
        >::empty());
        match convert_segments(raws@, 0) {
            Ok(rest) => {
                assert(Seq::<JsonPathSegmentV>::empty() + rest =~= rest);
            },
            Err(_) => {},
        }
    }
    while i < raws.len()
        invariant
            0 <= i <= raws@.len(),
            convert_segments(raws@, 0) == convert_cont(
                raws@,
                i as int,
                segments@.map_values(|seg: JsonPathSegment| seg@),
            ),
        decreases raws@.len() - i,
    {
        let ghost pre = segments@.map_values(|seg: JsonPathSegment| seg@);
        match &raws[i] {
            RawSegment::Name(n) => {
                let stripped = strip_name(n);
                proof {
                    lemma_convert_cont_step(
                        raws@,
                        i as int,
                        pre,
                        JsonPathSegmentV::Key(strip_quotes(n@)),
                    );
                }
                segments.push(JsonPathSegment::Key(stripped));
            },
            RawSegment::Index(x) => {
                if *x < 0 {
                    return Err(JsonPathParseError::UnsupportedSelectorType);
                }
                let xu = *x as u64;
                if xu > usize::MAX as u64 {
                    return Err(JsonPathParseError::UnsupportedSelectorType);
                }
                proof {
                    lemma_convert_cont_step(
                        raws@,
                        i as int,
                        pre,
                        JsonPathSegmentV::Index(*x as int),
                    );
                }
                segments.push(JsonPathSegment::Index(xu as usize));
            },
            RawSegment::Wildcard => {
                return Err(JsonPathParseError::UnsupportedSelectorType);
            },
            RawSegment::Slice => {
                return Err(JsonPathParseError::UnsupportedSelectorType);
            },
            RawSegment::Filter => {
                return Err(JsonPathParseError::UnsupportedSelectorType);
            },
            RawSegment::Descendant => {
                return Err(JsonPathParseError::UnsupportedSegmentType);
            },
            RawSegment::Selectors => {
                return Err(JsonPathParseError::UnsupportedSegmentType);
            },
        }
        i = i + 1;
        proof {
            assert(segments@.map_values(|seg: JsonPathSegment| seg@) =~= pre.push(
                segments@[segments@.len() - 1]@,
            ));
        }
    }
    Ok(segments)
}

} // verus!
