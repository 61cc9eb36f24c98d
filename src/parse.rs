//! The entry points: each reads from the start of a text and returns what
//! is left of it together with the value read.
use vstd::prelude::*;
use vstd::string::StrSliceExecFns;

use crate::grammar::{
    bare_sub_unit, basic_unit, chunk_unit, flag_named, format_unit, joined_unit, plain_unit,
    space_unit, stream, stream_unit, sub_unit, sub_unit_with_form, tag_token, CharClass, Parsed,
};
use crate::parser::{
    chars_of, flag_for, lemma_skip_skip, read_basic_unit, read_chunk_unit, read_flag,
    read_format_unit, read_joined_unit, read_plain_unit, read_space_unit, read_stream,
    read_stream_unit, read_sub_unit, read_tags, run_end, tracks,
};
use crate::types::{ErrorKind, Flag, ParseError, StreamUnit, SubLU};

verus! {

/// `r` is what the grammar reads from `input`: the same value with the same
/// text left over, or the same error kind at the same character offset.
pub open spec fn answers<'a, T: DeepView>(
    r: Result<(&'a str, T), ParseError>,
    m: Parsed<T::V>,
    input: Seq<char>,
) -> bool {
    match r {
        Ok((rest, v)) => m is Ok && v.deep_view() == m->Ok_0.0 && rest@ == m->Ok_0.1,
        Err(e) => m is Err && e.kind == m->Err_0.0 && e.offset + m->Err_0.1 == input.len(),
    }
}

fn finish<'a, T: DeepView>(input: &'a str, r: Result<(T, usize), ParseError>, m: Ghost<
    Parsed<T::V>,
>) -> (out: Result<(&'a str, T), ParseError>)
    requires
        tracks(r, m@, input@),
    ensures
        answers(out, m@, input@),
{
    match r {
        Ok((v, j)) => Ok((input.substring_char(j, input.unicode_len()), v)),
        Err(e) => Err(e),
    }
}

/// Reads one tag, `<` text `>`, and returns the text between the brackets.
pub fn parse_tag(input: &str) -> (r: Result<(&str, &str), ParseError>)
    ensures
        match tag_token(input@) {
            Some((t, rest)) => r matches Ok((left, tag)) && left@ == rest && tag@ == t,
            None => r == Err::<(&str, &str), ParseError>(
                ParseError { kind: ErrorKind::NoMatch, offset: 0 },
            ),
        },
{
    let s = chars_of(input);
    let n = s.len();
    if n > 0 && s[0] == '<' {
        let k = run_end(&s, 1, CharClass::TagText);
        proof {
            lemma_skip_skip(s@, 0, 1);
            assert(s@.skip(0) =~= s@);
        }
        if k > 1 && k < n && s[k] == '>' {
            return Ok((input.substring_char(k + 1, n), input.substring_char(1, k)));
        }
    }
    Err(ParseError { kind: ErrorKind::NoMatch, offset: 0 })
}

/// The flag that a marker names: `*`, `@` or `#`; anything else names none.
pub fn make_flag(s: &str) -> (f: Flag)
    ensures
        f == flag_named(s@),
{
    let c = chars_of(s);
    if c.len() == 1 {
        flag_for(c[0])
    } else {
        Flag::Nothing
    }
}

/// Reads a sub-unit that has lemma text: flag, lemma, tags.
pub fn parse_sub_lu_basic(input: &str) -> (r: Result<(&str, SubLU), ParseError>)
    ensures
        answers(r, sub_unit_with_form(input@), input@),
{
    let s = chars_of(input);
    proof {
        assert(s@.skip(0) =~= s@);
    }
    let r = read_sub_unit(&s, 0);
    let r = match r {
        Ok((a, j)) => {
            if a.ling_form.unicode_len() > 0 {
                Ok((a, j))
            } else {
                Err(ParseError { kind: ErrorKind::NoMatch, offset: 0 })
            }
        },
        Err(e) => Err(e),
    };
    finish(input, r, Ghost(sub_unit_with_form(input@)))
}

/// Reads a sub-unit without lemma text: flag and tags.
pub fn parse_sub_lu_without_ling_form(input: &str) -> (r: Result<(&str, SubLU), ParseError>)
    ensures
        answers(r, bare_sub_unit(input@), input@),
{
    let s = chars_of(input);
    proof {
        assert(s@.skip(0) =~= s@);
    }
    let (f, j) = read_flag(&s, 0);
    let (tags, k) = read_tags(&s, j);
    let a = SubLU { ling_form: String::new(), flag: f, tags };
    proof {
        assert(a.ling_form@ =~= Seq::<char>::empty());
    }
    finish(input, Ok((a, k)), Ghost(bare_sub_unit(input@)))
}

/// Reads a sub-unit: flag, lemma text if any, tags.
pub fn parse_sub_lu(input: &str) -> (r: Result<(&str, SubLU), ParseError>)
    ensures
        answers(r, sub_unit(input@), input@),
{
    let s = chars_of(input);
    proof {
        assert(s@.skip(0) =~= s@);
    }
    finish(input, read_sub_unit(&s, 0), Ghost(sub_unit(input@)))
}

/// Reads a lexical unit of the plain shape: `^`, analyses, `$`.
pub fn parse_basic_lu(input: &str) -> (r: Result<(&str, StreamUnit), ParseError>)
    ensures
        answers(r, basic_unit(input@), input@),
{
    let s = chars_of(input);
    proof {
        assert(s@.skip(0) =~= s@);
    }
    finish(input, read_basic_unit(&s, 0), Ghost(basic_unit(input@)))
}

/// Reads a lexical unit of the joined shape.
pub fn parse_joined_lu(input: &str) -> (r: Result<(&str, StreamUnit), ParseError>)
    ensures
        answers(r, joined_unit(input@), input@),
{
    let s = chars_of(input);
    proof {
        assert(s@.skip(0) =~= s@);
    }
    finish(input, read_joined_unit(&s, 0), Ghost(joined_unit(input@)))
}

/// Reads a unit that may stand inside a chunk: format, lexical unit or space.
pub fn parse_lu_or_space_or_format(input: &str) -> (r: Result<(&str, StreamUnit), ParseError>)
    ensures
        answers(r, plain_unit(input@), input@),
{
    let s = chars_of(input);
    proof {
        assert(s@.skip(0) =~= s@);
    }
    finish(input, read_plain_unit(&s, 0), Ghost(plain_unit(input@)))
}

/// Reads a chunk: head sub-unit, `{`, plain units, `}`.
pub fn parse_chunk(input: &str) -> (r: Result<(&str, StreamUnit), ParseError>)
    ensures
        answers(r, chunk_unit(input@), input@),
{
    let s = chars_of(input);
    proof {
        assert(s@.skip(0) =~= s@);
    }
    finish(input, read_chunk_unit(&s, 0), Ghost(chunk_unit(input@)))
}

/// Reads format markup: `[`, opaque text, `]`.
pub fn parse_format(input: &str) -> (r: Result<(&str, StreamUnit), ParseError>)
    ensures
        answers(r, format_unit(input@), input@),
{
    let s = chars_of(input);
    proof {
        assert(s@.skip(0) =~= s@);
    }
    finish(input, read_format_unit(&s, 0), Ghost(format_unit(input@)))
}

/// Reads whitespace: a run of spaces and tabs, or one newline.
pub fn parse_space(input: &str) -> (r: Result<(&str, StreamUnit), ParseError>)
    ensures
        answers(r, space_unit(input@), input@),
{
    let s = chars_of(input);
    proof {
        assert(s@.skip(0) =~= s@);
    }
    finish(input, read_space_unit(&s, 0), Ghost(space_unit(input@)))
}

/// Reads one unit of a stream, trying space, format, lexical unit and chunk
/// in that order.
pub fn parse_stream_unit(input: &str) -> (r: Result<(&str, StreamUnit), ParseError>)
    ensures
        answers(r, stream_unit(input@), input@),
{
    let s = chars_of(input);
    proof {
        assert(s@.skip(0) =~= s@);
    }
    finish(input, read_stream_unit(&s, 0), Ghost(stream_unit(input@)))
}

/// Reads units until the text ends or no unit starts; the text from there
/// on is returned unread.
pub fn parse_stream(input: &str) -> (r: Result<(&str, Vec<StreamUnit>), ParseError>)
    ensures
        answers(r, stream(input@), input@),
{
    let s = chars_of(input);
    proof {
        assert(s@.skip(0) =~= s@);
    }
    finish(input, read_stream(&s, 0), Ghost(stream(input@)))
}

} // verus!
