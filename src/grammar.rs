//! The stream notation, stated as a parser over sequences of characters.
//!
//! Every function takes the remaining input and returns either the value
//! read and the input left after it, or an error kind together with the
//! length of the input that was left where the failure happened.
use vstd::prelude::*;

use crate::types::{ErrorKind, Flag, SubLUModel, UnitModel};

verus! {

/// Outcome of reading a value of type `T` from the front of some input.
pub type Parsed<T> = Result<(T, Seq<char>), (ErrorKind, nat)>;

/// Characters that delimit lemma text and must be escaped inside it.
pub open spec fn is_reserved(c: char) -> bool {
    c == '^' || c == '$' || c == '/' || c == '<' || c == '>' || c == '{' || c == '}' || c == '\\'
        || c == '[' || c == ']' || c == '*' || c == '#' || c == '@'
}

pub open spec fn is_flag_char(c: char) -> bool {
    c == '*' || c == '@' || c == '#'
}

pub open spec fn flag_of(c: char) -> Flag {
    if c == '*' {
        Flag::Unanalyzed
    } else if c == '@' {
        Flag::Untranslated
    } else if c == '#' {
        Flag::UnableToGenerateOrStartOfInvariablePart
    } else {
        Flag::Nothing
    }
}

/// The character classes of the plain runs of the notation.
#[derive(Clone, Copy)]
pub enum CharClass {
    /// Inside a tag: anything but `<` and `>`.
    TagText,
    /// Inside format markup: anything but `[` and `]`.
    FormatText,
    /// Horizontal whitespace.
    Blank,
}

pub open spec fn in_class(c: char, k: CharClass) -> bool {
    match k {
        CharClass::TagText => c != '<' && c != '>',
        CharClass::FormatText => c != '[' && c != ']',
        CharClass::Blank => c == ' ' || c == '\t',
    }
}

/// Length of the longest prefix of `s` drawn from class `k`.
pub open spec fn run_len(s: Seq<char>, k: CharClass) -> nat
    decreases s.len(),
{
    if s.len() > 0 && in_class(s[0], k) {
        1 + run_len(s.skip(1), k)
    } else {
        0
    }
}

/// `r` is what is left of `s` after reading some prefix of it.
pub open spec fn is_suffix(r: Seq<char>, s: Seq<char>) -> bool {
    r.len() <= s.len() && r == s.skip(s.len() - r.len())
}

/// Puts `acc` in front of the list that `r` read, keeping failures.
pub open spec fn prepend<T>(acc: Seq<T>, r: Parsed<Seq<T>>) -> Parsed<Seq<T>> {
    match r {
        Ok((l, rest)) => Ok((acc + l, rest)),
        Err(e) => Err(e),
    }
}

pub open spec fn fail<T>(k: ErrorKind, s: Seq<char>) -> Parsed<T> {
    Err((k, s.len()))
}

/// Lemma text: characters other than reserved ones, where a backslash
/// followed by a reserved character stands for that character.
pub open spec fn lemma_text(s: Seq<char>) -> Parsed<Seq<char>>
    decreases s.len(),
{
    if s.len() == 0 {
        Ok((seq![], s))
    } else if s[0] == '\\' {
        if s.len() >= 2 && is_reserved(s[1]) {
            prepend(seq![s[1]], lemma_text(s.skip(2)))
        } else {
            fail(ErrorKind::InvalidEscape, s)
        }
    } else if is_reserved(s[0]) {
        Ok((seq![], s))
    } else {
        prepend(seq![s[0]], lemma_text(s.skip(1)))
    }
}

/// One tag: `<`, one or more characters other than `<` and `>`, then `>`.
pub open spec fn tag_token(s: Seq<char>) -> Option<(Seq<char>, Seq<char>)> {
    let k = run_len(s.skip(1), CharClass::TagText) as int;
    if s.len() > 0 && s[0] == '<' && k > 0 && k + 1 < s.len() && s[k + 1] == '>' {
        Some((s.subrange(1, k + 1), s.skip(k + 2)))
    } else {
        None
    }
}

/// As many tags as follow one another.
pub open spec fn tag_list(s: Seq<char>) -> (Seq<Seq<char>>, Seq<char>)
    decreases s.len(),
{
    match tag_token(s) {
        Some((t, r)) => {
            let (ts, r2) = tag_list(r);
            (seq![t] + ts, r2)
        },
        None => (seq![], s),
    }
}

/// An optional flag character and what it stands for.
pub open spec fn flag_prefix(s: Seq<char>) -> (Flag, Seq<char>) {
    if s.len() > 0 && is_flag_char(s[0]) {
        (flag_of(s[0]), s.skip(1))
    } else {
        (Flag::Nothing, s)
    }
}

/// A sub-unit: optional flag, optional lemma text, then tags.
pub open spec fn sub_unit(s: Seq<char>) -> Parsed<SubLUModel> {
    let (f, r) = flag_prefix(s);
    match lemma_text(r) {
        Err(e) => Err(e),
        Ok((l, r2)) => {
            let (ts, r3) = tag_list(r2);
            Ok((SubLUModel { ling_form: l, flag: f, tags: ts }, r3))
        },
    }
}

/// A sub-unit whose lemma text is not empty.
pub open spec fn sub_unit_with_form(s: Seq<char>) -> Parsed<SubLUModel> {
    match sub_unit(s) {
        Ok((a, r)) => if a.ling_form.len() > 0 {
            Ok((a, r))
        } else {
            fail(ErrorKind::NoMatch, s)
        },
        Err(e) => Err(e),
    }
}

/// A sub-unit without lemma text: optional flag, then tags.
pub open spec fn bare_sub_unit(s: Seq<char>) -> Parsed<SubLUModel> {
    let (f, r) = flag_prefix(s);
    let (ts, r2) = tag_list(r);
    Ok((SubLUModel { ling_form: seq![], flag: f, tags: ts }, r2))
}

/// The flag that a whole text names: one flag character, else none.
pub open spec fn flag_named(t: Seq<char>) -> Flag {
    if t.len() == 1 {
        flag_of(t[0])
    } else {
        Flag::Nothing
    }
}

/// One or more sub-units separated by `sep`.
pub open spec fn sub_units(s: Seq<char>, sep: char) -> Parsed<Seq<SubLUModel>>
    decreases s.len(),
    via sub_units_decreases
{
    match sub_unit(s) {
        Err(e) => Err(e),
        Ok((a, r)) => if r.len() > 0 && r[0] == sep {
            prepend(seq![a], sub_units(r.skip(1), sep))
        } else {
            Ok((seq![a], r))
        },
    }
}

#[via_fn]
proof fn sub_units_decreases(s: Seq<char>, sep: char) {
    lemma_sub_unit_suffix(s);
}

/// One or more `+`-joined groups of sub-units, separated by `/`.
pub open spec fn slots(s: Seq<char>) -> Parsed<Seq<Seq<SubLUModel>>>
    decreases s.len(),
    via slots_decreases
{
    match sub_units(s, '+') {
        Err(e) => Err(e),
        Ok((a, r)) => if r.len() > 0 && r[0] == '/' {
            prepend(seq![a], slots(r.skip(1)))
        } else {
            Ok((seq![a], r))
        },
    }
}

#[via_fn]
proof fn slots_decreases(s: Seq<char>) {
    lemma_sub_units_suffix(s, '+');
}

/// `^`, `/`-separated analyses, `$`. A `+` where the closer is expected
/// leaves the input to the joined shape.
pub open spec fn basic_unit(s: Seq<char>) -> Parsed<UnitModel> {
    if !(s.len() > 0 && s[0] == '^') {
        fail(ErrorKind::NoMatch, s)
    } else if s.len() > 1 && s[1] == '$' {
        Ok((UnitModel::LexicalUnit(seq![]), s.skip(2)))
    } else {
        match sub_units(s.skip(1), '/') {
            Err(e) => Err(e),
            Ok((a, r)) => if r.len() > 0 && r[0] == '$' {
                Ok((UnitModel::LexicalUnit(a), r.skip(1)))
            } else if r.len() > 0 && r[0] == '+' {
                fail(ErrorKind::NoMatch, s)
            } else {
                fail(ErrorKind::UnterminatedUnit, r)
            },
        }
    }
}

/// `^`, `/`-separated groups of `+`-joined sub-units, `$`.
pub open spec fn joined_unit(s: Seq<char>) -> Parsed<UnitModel> {
    if !(s.len() > 0 && s[0] == '^') {
        fail(ErrorKind::NoMatch, s)
    } else if s.len() > 1 && s[1] == '$' {
        Ok((UnitModel::JoinedLexicalUnit(seq![]), s.skip(2)))
    } else {
        match slots(s.skip(1)) {
            Err(e) => Err(e),
            Ok((a, r)) => if r.len() > 0 && r[0] == '$' {
                Ok((UnitModel::JoinedLexicalUnit(a), r.skip(1)))
            } else {
                fail(ErrorKind::UnterminatedUnit, r)
            },
        }
    }
}

/// A lexical unit: the plain shape first, the joined one where a `+` came.
pub open spec fn lexical_unit(s: Seq<char>) -> Parsed<UnitModel> {
    match basic_unit(s) {
        Err((ErrorKind::NoMatch, _)) => joined_unit(s),
        r => r,
    }
}

/// `[`, opaque text without `[` and `]`, `]`.
pub open spec fn format_unit(s: Seq<char>) -> Parsed<UnitModel> {
    let k = run_len(s.skip(1), CharClass::FormatText) as int;
    if !(s.len() > 0 && s[0] == '[') {
        fail(ErrorKind::NoMatch, s)
    } else if k > 0 && k + 1 < s.len() && s[k + 1] == ']' {
        Ok((UnitModel::Format(s.subrange(1, k + 1)), s.skip(k + 2)))
    } else {
        Err((ErrorKind::UnterminatedUnit, (s.len() - 1 - k) as nat))
    }
}

/// A maximal run of spaces and tabs, or one newline.
pub open spec fn space_unit(s: Seq<char>) -> Parsed<UnitModel> {
    let k = run_len(s, CharClass::Blank) as int;
    if k > 0 {
        Ok((UnitModel::Space(s.take(k)), s.skip(k)))
    } else if s.len() > 0 && s[0] == '\n' {
        Ok((UnitModel::Space(seq!['\n']), s.skip(1)))
    } else {
        fail(ErrorKind::NoMatch, s)
    }
}

/// Whitespace, format markup or a lexical unit: what a chunk may hold.
pub open spec fn plain_unit(s: Seq<char>) -> Parsed<UnitModel> {
    match space_unit(s) {
        Err((ErrorKind::NoMatch, _)) => match format_unit(s) {
            Err((ErrorKind::NoMatch, _)) => lexical_unit(s),
            r => r,
        },
        r => r,
    }
}

/// Plain units, as many as follow one another.
pub open spec fn children(s: Seq<char>) -> Parsed<Seq<UnitModel>>
    decreases s.len(),
    via children_decreases
{
    match plain_unit(s) {
        Ok((u, r)) => prepend(seq![u], children(r)),
        Err((ErrorKind::NoMatch, _)) => Ok((seq![], s)),
        Err(e) => Err(e),
    }
}

#[via_fn]
proof fn children_decreases(s: Seq<char>) {
    lemma_plain_unit_suffix(s);
}

/// A chunk: a head sub-unit, then `{`, plain units, `}`.
pub open spec fn chunk_unit(s: Seq<char>) -> Parsed<UnitModel> {
    match sub_unit(s) {
        Err(_) => fail(ErrorKind::NoMatch, s),
        Ok((h, r)) => if !(r.len() > 0 && r[0] == '{') {
            fail(ErrorKind::NoMatch, s)
        } else {
            match children(r.skip(1)) {
                Err(e) => Err(e),
                Ok((cs, r2)) => if r2.len() > 0 && r2[0] == '}' {
                    Ok((UnitModel::Chunk(h, cs), r2.skip(1)))
                } else {
                    fail(ErrorKind::UnterminatedUnit, r2)
                },
            }
        },
    }
}

/// One unit of the stream, alternatives tried in their fixed order.
pub open spec fn stream_unit(s: Seq<char>) -> Parsed<UnitModel> {
    match plain_unit(s) {
        Err((ErrorKind::NoMatch, _)) => chunk_unit(s),
        r => r,
    }
}

/// The units of a stream, up to the first position where none starts.
pub open spec fn stream(s: Seq<char>) -> Parsed<Seq<UnitModel>>
    decreases s.len(),
    via stream_decreases
{
    match stream_unit(s) {
        Ok((u, r)) => prepend(seq![u], stream(r)),
        Err((ErrorKind::NoMatch, _)) => Ok((seq![], s)),
        Err(e) => Err(e),
    }
}

#[via_fn]
proof fn stream_decreases(s: Seq<char>) {
    lemma_stream_unit_suffix(s);
}

// What each reader leaves is a suffix of its input, shorter where a unit was read.

pub proof fn lemma_suffix_trans(a: Seq<char>, b: Seq<char>, c: Seq<char>)
    requires
        is_suffix(a, b),
        is_suffix(b, c),
    ensures
        is_suffix(a, c),
{
    assert(a =~= c.skip(c.len() - a.len()));
}

pub proof fn lemma_skip_suffix(s: Seq<char>, k: int)
    requires
        0 <= k <= s.len(),
    ensures
        is_suffix(s.skip(k), s),
{
    assert(s.skip(k) =~= s.skip(s.len() - s.skip(k).len()));
}

pub proof fn lemma_lemma_text_suffix(s: Seq<char>)
    ensures
        lemma_text(s) is Ok ==> is_suffix(lemma_text(s)->Ok_0.1, s),
    decreases s.len(),
{
    if s.len() > 0 && !(s[0] != '\\' && is_reserved(s[0])) {
        let k: int = if s[0] == '\\' { 2 } else { 1 };
        if s.len() >= k {
            lemma_lemma_text_suffix(s.skip(k));
            lemma_skip_suffix(s, k);
            if lemma_text(s) is Ok {
                lemma_suffix_trans(lemma_text(s)->Ok_0.1, s.skip(k), s);
            }
        }
    } else {
        lemma_skip_suffix(s, 0);
        assert(s.skip(0) =~= s);
    }
}

pub proof fn lemma_tag_list_suffix(s: Seq<char>)
    ensures
        is_suffix(tag_list(s).1, s),
    decreases s.len(),
{
    match tag_token(s) {
        Some((t, r)) => {
            let k = run_len(s.skip(1), CharClass::TagText) as int;
            lemma_skip_suffix(s, k + 2);
            lemma_tag_list_suffix(r);
            lemma_suffix_trans(tag_list(r).1, r, s);
        },
        None => {
            lemma_skip_suffix(s, 0);
            assert(s.skip(0) =~= s);
        },
    }
}

pub proof fn lemma_sub_unit_suffix(s: Seq<char>)
    ensures
        sub_unit(s) is Ok ==> is_suffix(sub_unit(s)->Ok_0.1, s),
{
    let r = flag_prefix(s).1;
    if s.len() > 0 && is_flag_char(s[0]) {
        lemma_skip_suffix(s, 1);
    } else {
        lemma_skip_suffix(s, 0);
        assert(s.skip(0) =~= s);
    }
    lemma_lemma_text_suffix(r);
    if let Ok((l, r2)) = lemma_text(r) {
        lemma_tag_list_suffix(r2);
        lemma_suffix_trans(r2, r, s);
        lemma_suffix_trans(tag_list(r2).1, r2, s);
    }
}

pub proof fn lemma_sub_units_suffix(s: Seq<char>, sep: char)
    ensures
        sub_units(s, sep) is Ok ==> is_suffix(sub_units(s, sep)->Ok_0.1, s),
    decreases s.len(),
{
    lemma_sub_unit_suffix(s);
    if let Ok((a, r)) = sub_unit(s) {
        if r.len() > 0 && r[0] == sep {
            lemma_skip_suffix(r, 1);
            lemma_suffix_trans(r.skip(1), r, s);
            lemma_sub_units_suffix(r.skip(1), sep);
            if sub_units(s, sep) is Ok {
                lemma_suffix_trans(sub_units(s, sep)->Ok_0.1, r.skip(1), s);
            }
        }
    }
}

pub proof fn lemma_slots_suffix(s: Seq<char>)
    ensures
        slots(s) is Ok ==> is_suffix(slots(s)->Ok_0.1, s),
    decreases s.len(),
{
    lemma_sub_units_suffix(s, '+');
    if let Ok((a, r)) = sub_units(s, '+') {
        if r.len() > 0 && r[0] == '/' {
            lemma_skip_suffix(r, 1);
            lemma_suffix_trans(r.skip(1), r, s);
            lemma_slots_suffix(r.skip(1));
            if slots(s) is Ok {
                lemma_suffix_trans(slots(s)->Ok_0.1, r.skip(1), s);
            }
        }
    }
}

/// A unit that was read consumed at least one character.
pub open spec fn shrinks<T>(r: Parsed<T>, s: Seq<char>) -> bool {
    r is Ok ==> is_suffix(r->Ok_0.1, s) && r->Ok_0.1.len() < s.len()
}

pub proof fn lemma_run_len_bound(s: Seq<char>, k: CharClass)
    ensures
        run_len(s, k) <= s.len(),
    decreases s.len(),
{
    if s.len() > 0 && in_class(s[0], k) {
        lemma_run_len_bound(s.skip(1), k);
    }
}

pub proof fn lemma_plain_unit_suffix(s: Seq<char>)
    ensures
        shrinks(plain_unit(s), s),
{
    lemma_run_len_bound(s, CharClass::Blank);
    lemma_run_len_bound(s.skip(1), CharClass::FormatText);
    if s.len() > 0 {
        lemma_skip_suffix(s, 1);
        if s.len() > 1 {
            lemma_skip_suffix(s, 2);
        }
        lemma_skip_suffix(s, run_len(s, CharClass::Blank) as int);
        let k = run_len(s.skip(1), CharClass::FormatText) as int;
        if k + 2 <= s.len() {
            lemma_skip_suffix(s, k + 2);
        }
        if s.len() > 1 {
            lemma_sub_units_suffix(s.skip(1), '/');
            lemma_slots_suffix(s.skip(1));
            if let Ok((a, r)) = sub_units(s.skip(1), '/') {
                lemma_suffix_trans(r, s.skip(1), s);
                if r.len() > 0 {
                    lemma_skip_suffix(r, 1);
                    lemma_suffix_trans(r.skip(1), r, s);
                }
            }
            if let Ok((a, r)) = slots(s.skip(1)) {
                lemma_suffix_trans(r, s.skip(1), s);
                if r.len() > 0 {
                    lemma_skip_suffix(r, 1);
                    lemma_suffix_trans(r.skip(1), r, s);
                }
            }
        }
    }
}

pub proof fn lemma_children_suffix(s: Seq<char>)
    ensures
        children(s) is Ok ==> is_suffix(children(s)->Ok_0.1, s),
    decreases s.len(),
{
    lemma_plain_unit_suffix(s);
    match plain_unit(s) {
        Ok((u, r)) => {
            lemma_children_suffix(r);
            if children(s) is Ok {
                lemma_suffix_trans(children(s)->Ok_0.1, r, s);
            }
        },
        _ => {
            lemma_skip_suffix(s, 0);
            assert(s.skip(0) =~= s);
        },
    }
}

pub proof fn lemma_stream_unit_suffix(s: Seq<char>)
    ensures
        shrinks(stream_unit(s), s),
{
    lemma_plain_unit_suffix(s);
    lemma_sub_unit_suffix(s);
    if let Ok((h, r)) = sub_unit(s) {
        if r.len() > 0 && r[0] == '{' {
            lemma_skip_suffix(r, 1);
            lemma_suffix_trans(r.skip(1), r, s);
            lemma_children_suffix(r.skip(1));
            if let Ok((cs, r2)) = children(r.skip(1)) {
                lemma_suffix_trans(r2, r.skip(1), s);
                if r2.len() > 0 {
                    lemma_skip_suffix(r2, 1);
                    lemma_suffix_trans(r2.skip(1), r2, s);
                }
            }
        }
    }
}

} // verus!
