//! Executable readers, each proved to agree with its counterpart in
//! `grammar` on the input that starts at a given position.
use vstd::prelude::*;

use crate::grammar::{
    basic_unit, chunk_unit, children, flag_of, flag_prefix, format_unit, in_class,
    is_reserved, joined_unit, lemma_sub_unit_suffix, lemma_sub_units_suffix, lemma_plain_unit_suffix,
    lemma_stream_unit_suffix, lemma_text, lexical_unit, plain_unit, prepend, run_len, slots,
    space_unit, stream, stream_unit, sub_unit, sub_units, tag_list, tag_token, CharClass, Parsed,
};
use crate::types::{ErrorKind, Flag, ParseError, StreamUnit, SubLU};

verus! {

/// `r`, read from position `j` of `s`, is what the grammar reads from the
/// input `s.skip(j)`: the same value and the same remainder, or the same
/// error kind at the same offset.
pub open spec fn tracks<T: DeepView>(
    r: Result<(T, usize), ParseError>,
    m: Parsed<T::V>,
    s: Seq<char>,
) -> bool {
    match r {
        Ok((v, j)) => m is Ok && v.deep_view() == m->Ok_0.0 && j <= s.len() && m->Ok_0.1
            == s.skip(j as int),
        Err(e) => m is Err && e.kind == m->Err_0.0 && e.offset + m->Err_0.1 == s.len(),
    }
}

/// Relies on `String::push`: appends the character at the end.
#[verifier::external_body]
pub(crate) fn push_char(s: &mut String, c: char)
    ensures
        final(s)@ == old(s)@.push(c),
{
    s.push(c);
}

/// Relies on `str::chars` collected into a `Vec`: the characters in order.
#[verifier::external_body]
pub(crate) fn chars_of(s: &str) -> (r: Vec<char>)
    ensures
        r@ == s@,
{
    s.chars().collect()
}

pub proof fn lemma_prepend_assoc<T>(a: Seq<T>, b: Seq<T>, r: Parsed<Seq<T>>)
    ensures
        prepend(a, prepend(b, r)) == prepend(a + b, r),
{
    if let Ok((l, t)) = r {
        assert(a + (b + l) =~= (a + b) + l);
    }
}

pub proof fn lemma_prepend_empty<T>(a: Seq<T>, t: Seq<char>)
    ensures
        prepend(a, Ok((Seq::<T>::empty(), t))) == Ok::<(Seq<T>, Seq<char>), (ErrorKind, nat)>((a, t)),
{
    assert(a + Seq::<T>::empty() =~= a);
}

pub proof fn lemma_skip_skip(s: Seq<char>, j: int, k: int)
    requires
        0 <= j <= s.len(),
        0 <= k <= s.len() - j,
    ensures
        s.skip(j).skip(k) == s.skip(j + k),
{
    assert(s.skip(j).skip(k) =~= s.skip(j + k));
}

proof fn lemma_push_deep<T: DeepView>(v: Seq<T>, a: T)
    ensures
        Seq::new(v.push(a).len(), |i: int| v.push(a)[i].deep_view()) == Seq::new(
            v.len(),
            |i: int| v[i].deep_view(),
        ).push(a.deep_view()),
{
    assert(Seq::new(v.push(a).len(), |i: int| v.push(a)[i].deep_view()) =~= Seq::new(
        v.len(),
        |i: int| v[i].deep_view(),
    ).push(a.deep_view()));
}

fn reserved(c: char) -> (b: bool)
    ensures
        b == is_reserved(c),
{
    c == '^' || c == '$' || c == '/' || c == '<' || c == '>' || c == '{' || c == '}' || c == '\\'
        || c == '[' || c == ']' || c == '*' || c == '#' || c == '@'
}

fn in_char_class(c: char, k: CharClass) -> (b: bool)
    ensures
        b == in_class(c, k),
{
    match k {
        CharClass::TagText => c != '<' && c != '>',
        CharClass::FormatText => c != '[' && c != ']',
        CharClass::Blank => c == ' ' || c == '\t',
    }
}

/// The flag that a flag character stands for.
pub(crate) fn flag_for(c: char) -> (f: Flag)
    ensures
        f == flag_of(c),
{
    if c == '*' {
        Flag::Unanalyzed
    } else if c == '@' {
        Flag::Untranslated
    } else if c == '#' {
        Flag::UnableToGenerateOrStartOfInvariablePart
    } else {
        Flag::Nothing
    }
}

/// End of the run of class `k` that starts at `i`.
pub(crate) fn run_end(s: &Vec<char>, i: usize, k: CharClass) -> (j: usize)
    requires
        i <= s@.len(),
    ensures
        i <= j <= s@.len(),
        j - i == run_len(s@.skip(i as int), k),
{
    let mut j: usize = i;
    while j < s.len() && in_char_class(s[j], k)
        invariant
            i <= j <= s@.len(),
            run_len(s@.skip(i as int), k) == (j - i) + run_len(s@.skip(j as int), k),
        decreases s@.len() - j,
    {
        proof {
            lemma_skip_skip(s@, j as int, 1);
        }
        j = j + 1;
    }
    j
}

/// The characters of `s` from `from` up to `to`, as a `String`.
fn text_between(s: &Vec<char>, from: usize, to: usize) -> (t: String)
    requires
        from <= to <= s@.len(),
    ensures
        t@ == s@.subrange(from as int, to as int),
{
    let mut t = String::new();
    let mut j: usize = from;
    while j < to
        invariant
            from <= j <= to <= s@.len(),
            t@ == s@.subrange(from as int, j as int),
        decreases to - j,
    {
        push_char(&mut t, s[j]);
        j = j + 1;
        assert(t@ =~= s@.subrange(from as int, j as int));
    }
    t
}

pub(crate) fn read_lemma(s: &Vec<char>, i: usize) -> (r: Result<(String, usize), ParseError>)
    requires
        i <= s@.len(),
    ensures
        tracks(r, lemma_text(s@.skip(i as int)), s@),
{
    let mut out = String::new();
    let mut j: usize = i;
    assert(out@ + Seq::<char>::empty() =~= out@);
    loop
        invariant
            i <= j <= s@.len(),
            lemma_text(s@.skip(i as int)) == prepend(out@, lemma_text(s@.skip(j as int))),
        decreases s@.len() - j,
    {
        if j >= s.len() {
            proof {
                lemma_prepend_empty(out@, s@.skip(j as int));
            }
            return Ok((out, j));
        }
        let c = s[j];
        if c == '\\' {
            if j + 1 < s.len() && reserved(s[j + 1]) {
                proof {
                    lemma_skip_skip(s@, j as int, 2);
                    lemma_prepend_assoc(out@, seq![s@[j + 1]], lemma_text(s@.skip(j + 2)));
                }
                push_char(&mut out, s[j + 1]);
                j = j + 2;
            } else {
                return Err(ParseError { kind: ErrorKind::InvalidEscape, offset: j });
            }
        } else if reserved(c) {
            proof {
                lemma_prepend_empty(out@, s@.skip(j as int));
            }
            return Ok((out, j));
        } else {
            proof {
                lemma_skip_skip(s@, j as int, 1);
                lemma_prepend_assoc(out@, seq![c], lemma_text(s@.skip(j + 1)));
            }
            push_char(&mut out, c);
            j = j + 1;
        }
    }
}

pub(crate) fn read_tag(s: &Vec<char>, i: usize) -> (r: Option<(String, usize)>)
    requires
        i <= s@.len(),
    ensures
        match r {
            Some((t, j)) => j <= s@.len() && tag_token(s@.skip(i as int)) == Some(
                (t@, s@.skip(j as int)),
            ),
            None => tag_token(s@.skip(i as int)) is None,
        },
{
    if i < s.len() && s[i] == '<' {
        let k = run_end(s, i + 1, CharClass::TagText);
        proof {
            lemma_skip_skip(s@, i as int, 1);
        }
        if k > i + 1 && k < s.len() && s[k] == '>' {
            let t = text_between(s, i + 1, k);
            proof {
                lemma_skip_skip(s@, i as int, k - i + 1);
                assert(s@.skip(i as int).subrange(1, k - i) =~= s@.subrange(i + 1, k as int));
            }
            return Some((t, k + 1));
        }
    }
    None
}

pub(crate) fn read_tags(s: &Vec<char>, i: usize) -> (r: (Vec<String>, usize))
    requires
        i <= s@.len(),
    ensures
        i <= r.1 <= s@.len(),
        tag_list(s@.skip(i as int)) == (r.0.deep_view(), s@.skip(r.1 as int)),
{
    let mut acc: Vec<String> = Vec::new();
    let mut j: usize = i;
    assert(acc.deep_view() + tag_list(s@.skip(j as int)).0 =~= tag_list(s@.skip(j as int)).0);
    loop
        invariant
            i <= j <= s@.len(),
            tag_list(s@.skip(i as int)).0 == acc.deep_view() + tag_list(s@.skip(j as int)).0,
            tag_list(s@.skip(i as int)).1 == tag_list(s@.skip(j as int)).1,
        decreases s@.len() - j,
    {
        match read_tag(s, j) {
            Some((t, k)) => {
                proof {
                    lemma_push_deep(acc@, t);
                    let rest = tag_list(s@.skip(k as int)).0;
                    assert(acc.deep_view() + (seq![t@] + rest) =~= acc.deep_view().push(t@)
                        + rest);
                }
                acc.push(t);
                j = k;
            },
            None => {
                assert(acc.deep_view() + Seq::<Seq<char>>::empty() =~= acc.deep_view());
                return (acc, j);
            },
        }
    }
}

pub(crate) fn read_flag(s: &Vec<char>, i: usize) -> (r: (Flag, usize))
    requires
        i <= s@.len(),
    ensures
        i <= r.1 <= s@.len(),
        flag_prefix(s@.skip(i as int)) == (r.0, s@.skip(r.1 as int)),
{
    proof {
        lemma_skip_skip(s@, i as int, 0);
    }
    if i < s.len() && (s[i] == '*' || s[i] == '@' || s[i] == '#') {
        proof {
            lemma_skip_skip(s@, i as int, 1);
        }
        (flag_for(s[i]), i + 1)
    } else {
        (Flag::Nothing, i)
    }
}

pub(crate) fn read_sub_unit(s: &Vec<char>, i: usize) -> (r: Result<(SubLU, usize), ParseError>)
    requires
        i <= s@.len(),
    ensures
        tracks(r, sub_unit(s@.skip(i as int)), s@),
{
    let (f, j) = read_flag(s, i);
    match read_lemma(s, j) {
        Err(e) => Err(e),
        Ok((l, k)) => {
            let (ts, m) = read_tags(s, k);
            Ok((SubLU { ling_form: l, flag: f, tags: ts }, m))
        },
    }
}

pub(crate) fn read_sub_units(s: &Vec<char>, i: usize, sep: char) -> (r: Result<(Vec<SubLU>, usize), ParseError>)
    requires
        i <= s@.len(),
    ensures
        tracks(r, sub_units(s@.skip(i as int), sep), s@),
{
    let mut acc: Vec<SubLU> = Vec::new();
    let mut j: usize = i;
    proof {
        assert(acc.deep_view() =~= Seq::<crate::types::SubLUModel>::empty());
        lemma_prepend_zero(sub_units(s@.skip(i as int), sep));
    }
    loop
        invariant
            i <= j <= s@.len(),
            sub_units(s@.skip(i as int), sep) == prepend(acc.deep_view(), sub_units(s@.skip(j as int), sep)),
        decreases s@.len() - j,
    {
        proof {
            lemma_sub_unit_suffix(s@.skip(j as int));
        }
        match read_sub_unit(s, j) {
            Err(e) => {
                return Err(e);
            },
            Ok((a, k)) => {
                proof {
                    lemma_push_deep(acc@, a);
                    assert(s@.skip(j as int).len() > 0 ==> s@.skip(k as int).len() <= s@.skip(j as int).len());
                    if k < s@.len() {
                        assert(s@.skip(k as int)[0] == s@[k as int]);
                    }
                }
                if k < s.len() && s[k] == sep {
                    proof {
                        lemma_skip_skip(s@, k as int, 1);
                        lemma_prepend_assoc(acc.deep_view(), seq![a.deep_view()], sub_units(s@.skip(k + 1), sep));
                    }
                    let ghost old_dv = acc.deep_view();
                    acc.push(a);
                    assert(acc.deep_view() == old_dv + seq![a.deep_view()]);
                    j = k + 1;
                } else {
                    proof {
                        lemma_prepend_assoc(acc.deep_view(), seq![a.deep_view()], Ok((Seq::empty(), s@.skip(k as int))));
                        lemma_prepend_empty(acc.deep_view() + seq![a.deep_view()], s@.skip(k as int));
                        lemma_prepend_empty(seq![a.deep_view()], s@.skip(k as int));
                    }
                    let ghost old_dv = acc.deep_view();
                    acc.push(a);
                    assert(acc.deep_view() == old_dv + seq![a.deep_view()]);
                    return Ok((acc, k));
                }
            },
        }
    }
}


pub(crate) fn read_slots(s: &Vec<char>, i: usize) -> (r: Result<(Vec<Vec<SubLU>>, usize), ParseError>)
    requires
        i <= s@.len(),
    ensures
        tracks(r, slots(s@.skip(i as int)), s@),
{
    let mut acc: Vec<Vec<SubLU>> = Vec::new();
    let mut j: usize = i;
    proof {
        assert(acc.deep_view() =~= Seq::<Seq<crate::types::SubLUModel>>::empty());
        lemma_prepend_zero(slots(s@.skip(i as int)));
    }
    loop
        invariant
            i <= j <= s@.len(),
            slots(s@.skip(i as int)) == prepend(acc.deep_view(), slots(s@.skip(j as int))),
        decreases s@.len() - j,
    {
        proof {
            lemma_sub_units_suffix(s@.skip(j as int), '+');
        }
        match read_sub_units(s, j, '+') {
            Err(e) => {
                return Err(e);
            },
            Ok((a, k)) => {
                proof {
                    lemma_push_deep(acc@, a);
                    if k < s@.len() {
                        assert(s@.skip(k as int)[0] == s@[k as int]);
                    }
                }
                let ghost old_dv = acc.deep_view();
                let ghost a_dv = a.deep_view();
                acc.push(a);
                assert(acc.deep_view() == old_dv + seq![a_dv]);
                if k < s.len() && s[k] == '/' {
                    proof {
                        lemma_skip_skip(s@, k as int, 1);
                        lemma_prepend_assoc(old_dv, seq![a_dv], slots(s@.skip(k + 1)));
                    }
                    j = k + 1;
                } else {
                    proof {
                        lemma_prepend_assoc(old_dv, seq![a_dv], Ok((Seq::empty(), s@.skip(k as int))));
                        lemma_prepend_empty(old_dv + seq![a_dv], s@.skip(k as int));
                        lemma_prepend_empty(seq![a_dv], s@.skip(k as int));
                    }
                    return Ok((acc, k));
                }
            },
        }
    }
}

fn no_match<T>(i: usize) -> (r: Result<T, ParseError>)
    ensures
        r == Err::<T, ParseError>(ParseError { kind: ErrorKind::NoMatch, offset: i }),
{
    Err(ParseError { kind: ErrorKind::NoMatch, offset: i })
}

pub(crate) fn read_basic_unit(s: &Vec<char>, i: usize) -> (r: Result<(StreamUnit, usize), ParseError>)
    requires
        i <= s@.len(),
    ensures
        tracks(r, basic_unit(s@.skip(i as int)), s@),
{
    if !(i < s.len() && s[i] == '^') {
        return no_match(i);
    }
    if i + 1 < s.len() && s[i + 1] == '$' {
        let v = Vec::new();
        assert(v.deep_view() =~= Seq::empty());
        let r = StreamUnit::LexicalUnit(v);
        proof {
            lemma_skip_skip(s@, i as int, 2);
            assert(r.deep_view() == crate::types::UnitModel::LexicalUnit(Seq::empty()));
        }
        return Ok((r, i + 2));
    }
    proof {
        lemma_skip_skip(s@, i as int, 1);
    }
    match read_sub_units(s, i + 1, '/') {
        Err(e) => Err(e),
        Ok((a, k)) => {
            proof {
                if k < s@.len() {
                    assert(s@.skip(k as int)[0] == s@[k as int]);
                    lemma_skip_skip(s@, k as int, 1);
                }
            }
            if k < s.len() && s[k] == '$' {
                Ok((StreamUnit::LexicalUnit(a), k + 1))
            } else if k < s.len() && s[k] == '+' {
                no_match(i)
            } else {
                Err(ParseError { kind: ErrorKind::UnterminatedUnit, offset: k })
            }
        },
    }
}

pub(crate) fn read_joined_unit(s: &Vec<char>, i: usize) -> (r: Result<(StreamUnit, usize), ParseError>)
    requires
        i <= s@.len(),
    ensures
        tracks(r, joined_unit(s@.skip(i as int)), s@),
{
    if !(i < s.len() && s[i] == '^') {
        return no_match(i);
    }
    if i + 1 < s.len() && s[i + 1] == '$' {
        let v = Vec::new();
        assert(v.deep_view() =~= Seq::empty());
        let r = StreamUnit::JoinedLexicalUnit(v);
        proof {
            lemma_skip_skip(s@, i as int, 2);
            assert(r.deep_view() == crate::types::UnitModel::JoinedLexicalUnit(Seq::empty()));
        }
        return Ok((r, i + 2));
    }
    proof {
        lemma_skip_skip(s@, i as int, 1);
    }
    match read_slots(s, i + 1) {
        Err(e) => Err(e),
        Ok((a, k)) => {
            proof {
                if k < s@.len() {
                    assert(s@.skip(k as int)[0] == s@[k as int]);
                    lemma_skip_skip(s@, k as int, 1);
                }
            }
            if k < s.len() && s[k] == '$' {
                Ok((StreamUnit::JoinedLexicalUnit(a), k + 1))
            } else {
                Err(ParseError { kind: ErrorKind::UnterminatedUnit, offset: k })
            }
        },
    }
}

pub(crate) fn read_lexical_unit(s: &Vec<char>, i: usize) -> (r: Result<(StreamUnit, usize), ParseError>)
    requires
        i <= s@.len(),
    ensures
        tracks(r, lexical_unit(s@.skip(i as int)), s@),
{
    match read_basic_unit(s, i) {
        Err(e) => {
            if e.kind == ErrorKind::NoMatch {
                read_joined_unit(s, i)
            } else {
                Err(e)
            }
        },
        r => r,
    }
}

pub(crate) fn read_format_unit(s: &Vec<char>, i: usize) -> (r: Result<(StreamUnit, usize), ParseError>)
    requires
        i <= s@.len(),
    ensures
        tracks(r, format_unit(s@.skip(i as int)), s@),
{
    if !(i < s.len() && s[i] == '[') {
        return no_match(i);
    }
    let k = run_end(s, i + 1, CharClass::FormatText);
    proof {
        lemma_skip_skip(s@, i as int, 1);
    }
    if k > i + 1 && k < s.len() && s[k] == ']' {
        let t = text_between(s, i + 1, k);
        proof {
            lemma_skip_skip(s@, i as int, k - i + 1);
            assert(s@.skip(i as int).subrange(1, k - i) =~= s@.subrange(i + 1, k as int));
        }
        Ok((StreamUnit::Format(t), k + 1))
    } else {
        Err(ParseError { kind: ErrorKind::UnterminatedUnit, offset: k })
    }
}

pub(crate) fn read_space_unit(s: &Vec<char>, i: usize) -> (r: Result<(StreamUnit, usize), ParseError>)
    requires
        i <= s@.len(),
    ensures
        tracks(r, space_unit(s@.skip(i as int)), s@),
{
    let k = run_end(s, i, CharClass::Blank);
    if k > i {
        let t = text_between(s, i, k);
        proof {
            lemma_skip_skip(s@, i as int, k - i);
            assert(s@.skip(i as int).take(k - i) =~= s@.subrange(i as int, k as int));
        }
        Ok((StreamUnit::Space(t), k))
    } else if i < s.len() && s[i] == '\n' {
        let t = text_between(s, i, i + 1);
        proof {
            lemma_skip_skip(s@, i as int, 1);
            assert(t@ =~= seq!['\n']);
        }
        Ok((StreamUnit::Space(t), i + 1))
    } else {
        no_match(i)
    }
}

pub(crate) fn read_plain_unit(s: &Vec<char>, i: usize) -> (r: Result<(StreamUnit, usize), ParseError>)
    requires
        i <= s@.len(),
    ensures
        tracks(r, plain_unit(s@.skip(i as int)), s@),
{
    match read_space_unit(s, i) {
        Err(e) => {
            if e.kind == ErrorKind::NoMatch {
                match read_format_unit(s, i) {
                    Err(e2) => {
                        if e2.kind == ErrorKind::NoMatch {
                            read_lexical_unit(s, i)
                        } else {
                            Err(e2)
                        }
                    },
                    r => r,
                }
            } else {
                Err(e)
            }
        },
        r => r,
    }
}

pub(crate) fn read_children(s: &Vec<char>, i: usize) -> (r: Result<(Vec<StreamUnit>, usize), ParseError>)
    requires
        i <= s@.len(),
    ensures
        tracks(r, children(s@.skip(i as int)), s@),
{
    let mut acc: Vec<StreamUnit> = Vec::new();
    let mut j: usize = i;
    proof {
        assert(acc.deep_view() =~= Seq::<crate::types::UnitModel>::empty());
        lemma_prepend_zero(children(s@.skip(i as int)));
    }
    loop
        invariant
            i <= j <= s@.len(),
            children(s@.skip(i as int)) == prepend(acc.deep_view(), children(s@.skip(j as int))),
        decreases s@.len() - j,
    {
        proof {
            lemma_plain_unit_suffix(s@.skip(j as int));
        }
        match read_plain_unit(s, j) {
            Err(e) => {
                if e.kind == ErrorKind::NoMatch {
                    proof {
                        lemma_prepend_empty(acc.deep_view(), s@.skip(j as int));
                    }
                    return Ok((acc, j));
                }
                return Err(e);
            },
            Ok((u, k)) => {
                proof {
                    lemma_push_deep(acc@, u);
                    lemma_prepend_assoc(acc.deep_view(), seq![u.deep_view()], children(s@.skip(k as int)));
                }
                let ghost old_dv = acc.deep_view();
                acc.push(u);
                assert(acc.deep_view() == old_dv + seq![u.deep_view()]);
                j = k;
            },
        }
    }
}

pub(crate) fn read_chunk_unit(s: &Vec<char>, i: usize) -> (r: Result<(StreamUnit, usize), ParseError>)
    requires
        i <= s@.len(),
    ensures
        tracks(r, chunk_unit(s@.skip(i as int)), s@),
{
    match read_sub_unit(s, i) {
        Err(_) => no_match(i),
        Ok((h, k)) => {
            proof {
                if k < s@.len() {
                    assert(s@.skip(k as int)[0] == s@[k as int]);
                    lemma_skip_skip(s@, k as int, 1);
                }
            }
            if !(k < s.len() && s[k] == '{') {
                return no_match(i);
            }
            match read_children(s, k + 1) {
                Err(e) => Err(e),
                Ok((cs, m)) => {
                    proof {
                        if m < s@.len() {
                            assert(s@.skip(m as int)[0] == s@[m as int]);
                            lemma_skip_skip(s@, m as int, 1);
                        }
                    }
                    if m < s.len() && s[m] == '}' {
                        let u = StreamUnit::Chunk(h, cs);
                        proof {
                            assert(crate::types::unit_model(u)->Chunk_1 =~= cs.deep_view());
                            assert(u.deep_view() == crate::types::UnitModel::Chunk(h.deep_view(), cs.deep_view()));
                        }
                        Ok((u, m + 1))
                    } else {
                        Err(ParseError { kind: ErrorKind::UnterminatedUnit, offset: m })
                    }
                },
            }
        },
    }
}

pub(crate) fn read_stream_unit(s: &Vec<char>, i: usize) -> (r: Result<(StreamUnit, usize), ParseError>)
    requires
        i <= s@.len(),
    ensures
        tracks(r, stream_unit(s@.skip(i as int)), s@),
{
    match read_plain_unit(s, i) {
        Err(e) => {
            if e.kind == ErrorKind::NoMatch {
                read_chunk_unit(s, i)
            } else {
                Err(e)
            }
        },
        r => r,
    }
}

pub(crate) fn read_stream(s: &Vec<char>, i: usize) -> (r: Result<(Vec<StreamUnit>, usize), ParseError>)
    requires
        i <= s@.len(),
    ensures
        tracks(r, stream(s@.skip(i as int)), s@),
{
    let mut acc: Vec<StreamUnit> = Vec::new();
    let mut j: usize = i;
    proof {
        assert(acc.deep_view() =~= Seq::<crate::types::UnitModel>::empty());
        lemma_prepend_zero(stream(s@.skip(i as int)));
    }
    loop
        invariant
            i <= j <= s@.len(),
            stream(s@.skip(i as int)) == prepend(acc.deep_view(), stream(s@.skip(j as int))),
        decreases s@.len() - j,
    {
        proof {
            lemma_stream_unit_suffix(s@.skip(j as int));
        }
        match read_stream_unit(s, j) {
            Err(e) => {
                if e.kind == ErrorKind::NoMatch {
                    proof {
                        lemma_prepend_empty(acc.deep_view(), s@.skip(j as int));
                    }
                    return Ok((acc, j));
                }
                return Err(e);
            },
            Ok((u, k)) => {
                proof {
                    lemma_push_deep(acc@, u);
                    lemma_prepend_assoc(acc.deep_view(), seq![u.deep_view()], stream(s@.skip(k as int)));
                }
                let ghost old_dv = acc.deep_view();
                acc.push(u);
                assert(acc.deep_view() == old_dv + seq![u.deep_view()]);
                j = k;
            },
        }
    }
}

pub proof fn lemma_prepend_zero<T>(r: Parsed<Seq<T>>)
    ensures
        prepend(Seq::empty(), r) == r,
{
    if let Ok((l, t)) = r {
        assert(Seq::<T>::empty() + l =~= l);
    }
}

} // verus!
