//! The canonical text of parsed values, and which values the reader can
//! give back from their text.
use vstd::prelude::*;

use crate::grammar::{in_class, is_reserved, CharClass};
use crate::types::{Flag, SubLUModel, UnitModel};

verus! {

/// Lemma text with every reserved character escaped by a backslash.
pub open spec fn escaped(l: Seq<char>) -> Seq<char>
    decreases l.len(),
{
    if l.len() == 0 {
        seq![]
    } else {
        (if is_reserved(l[0]) {
            seq!['\\', l[0]]
        } else {
            seq![l[0]]
        }) + escaped(l.skip(1))
    }
}

pub open spec fn flag_text(f: Flag) -> Seq<char> {
    match f {
        Flag::Nothing => seq![],
        Flag::Unanalyzed => seq!['*'],
        Flag::Untranslated => seq!['@'],
        Flag::UnableToGenerateOrStartOfInvariablePart => seq!['#'],
    }
}

pub open spec fn tags_text(ts: Seq<Seq<char>>) -> Seq<char>
    decreases ts.len(),
{
    if ts.len() == 0 {
        seq![]
    } else {
        seq!['<'] + ts[0] + seq!['>'] + tags_text(ts.skip(1))
    }
}

pub open spec fn sub_text(a: SubLUModel) -> Seq<char> {
    flag_text(a.flag) + escaped(a.ling_form) + tags_text(a.tags)
}

/// Sub-units joined by `sep`.
pub open spec fn list_text(xs: Seq<SubLUModel>, sep: char) -> Seq<char>
    decreases xs.len(),
{
    if xs.len() == 0 {
        seq![]
    } else if xs.len() == 1 {
        sub_text(xs[0])
    } else {
        sub_text(xs[0]) + seq![sep] + list_text(xs.skip(1), sep)
    }
}

/// Groups of `+`-joined sub-units, joined by `/`.
pub open spec fn slots_text(xs: Seq<Seq<SubLUModel>>) -> Seq<char>
    decreases xs.len(),
{
    if xs.len() == 0 {
        seq![]
    } else if xs.len() == 1 {
        list_text(xs[0], '+')
    } else {
        list_text(xs[0], '+') + seq!['/'] + slots_text(xs.skip(1))
    }
}

pub open spec fn unit_text(u: UnitModel) -> Seq<char>
    decreases u,
    via unit_text_decreases
{
    match u {
        UnitModel::LexicalUnit(xs) => seq!['^'] + list_text(xs, '/') + seq!['$'],
        UnitModel::Space(t) => t,
        UnitModel::Format(t) => seq!['['] + t + seq![']'],
        UnitModel::JoinedLexicalUnit(xs) => seq!['^'] + slots_text(xs) + seq!['$'],
        UnitModel::Chunk(h, cs) => sub_text(h) + seq!['{'] + units_text(cs) + seq!['}'],
    }
}

/// The text of a sequence of units: their texts one after another.
pub open spec fn units_text(us: Seq<UnitModel>) -> Seq<char>
    decreases us,
    via units_text_decreases
{
    if us.len() == 0 {
        seq![]
    } else {
        unit_text(us[0]) + units_text(us.skip(1))
    }
}

#[via_fn]
proof fn unit_text_decreases(u: UnitModel) {
}

#[via_fn]
proof fn units_text_decreases(us: Seq<UnitModel>) {
    broadcast use vstd::seq::axiom_seq_index_decreases;

    if us.len() > 0 {
        assert(decreases_to!(us => us[0]));
        vstd::seq::axiom_seq_subrange_decreases(us, 1, us.len() as int);
    }
}

/// Whether a text is a run of spaces and tabs.
pub open spec fn is_blank_run(t: Seq<char>) -> bool {
    t.len() > 0 && forall|i: int| 0 <= i < t.len() ==> in_class(t[i], CharClass::Blank)
}

/// Whether a text starts with a space or a tab.
pub open spec fn starts_blank(t: Seq<char>) -> bool {
    t.len() > 0 && in_class(t[0], CharClass::Blank)
}

/// Whether a text starts with whitespace that the reader takes as a unit.
pub open spec fn starts_space(t: Seq<char>) -> bool {
    t.len() > 0 && (in_class(t[0], CharClass::Blank) || t[0] == '\n')
}

pub open spec fn tag_ok(t: Seq<char>) -> bool {
    t.len() > 0 && forall|i: int| 0 <= i < t.len() ==> in_class(t[i], CharClass::TagText)
}

pub open spec fn sub_ok(a: SubLUModel) -> bool {
    forall|i: int| 0 <= i < a.tags.len() ==> tag_ok(#[trigger] a.tags[i])
}

/// Sub-units that read back from their text joined by `sep`: each tag is
/// well formed, and where `sep` is `+` every member but the last ends in a
/// tag (else the `+` would be read as lemma text).
pub open spec fn list_ok(xs: Seq<SubLUModel>, sep: char) -> bool {
    &&& forall|i: int| 0 <= i < xs.len() ==> sub_ok(#[trigger] xs[i])
    &&& forall|i: int| 0 <= i < xs.len() - 1 ==> sep == '/' || (#[trigger] xs[i]).tags.len() > 0
}

/// Units that may stand inside a chunk: all but chunks.
pub open spec fn is_plain(u: UnitModel) -> bool {
    !(u is Chunk)
}

/// A unit that reads back from its own text.
pub open spec fn unit_ok(u: UnitModel) -> bool
    decreases u,
    via unit_ok_decreases
{
    match u {
        UnitModel::LexicalUnit(xs) => list_ok(xs, '/') && !(xs.len() == 1 && sub_text(xs[0]).len()
            == 0),
        UnitModel::Space(t) => is_blank_run(t) || t == seq!['\n'],
        UnitModel::Format(t) => t.len() > 0 && forall|i: int|
            0 <= i < t.len() ==> in_class(t[i], CharClass::FormatText),
        UnitModel::JoinedLexicalUnit(xs) => {
            &&& xs.len() > 0
            &&& forall|i: int| 0 <= i < xs.len() ==> (#[trigger] xs[i]).len() > 0 && list_ok(xs[i], '+')
            &&& exists|i: int| 0 <= i < xs.len() && (#[trigger] xs[i]).len() > 1
        },
        UnitModel::Chunk(h, cs) => {
            &&& sub_ok(h)
            &&& !starts_space(sub_text(h) + seq!['{'])
            &&& forall|i: int| 0 <= i < cs.len() ==> is_plain(#[trigger] cs[i]) && unit_ok(cs[i])
            &&& seams_ok(cs)
        },
    }
}

#[via_fn]
proof fn unit_ok_decreases(u: UnitModel) {
    broadcast use vstd::seq::axiom_seq_index_decreases;

    if let UnitModel::Chunk(h, cs) = u {
        assert forall|i: int| 0 <= i < cs.len() implies decreases_to!(u => cs[i]) by {
            assert(decreases_to!(u => cs));
            assert(decreases_to!(cs => cs[i]));
        }
    }
}

/// No run of spaces and tabs is followed by a unit whose text starts with
/// a space or a tab (the reader would take the two as one run).
pub open spec fn seams_ok(us: Seq<UnitModel>) -> bool {
    forall|i: int|
        0 <= i < us.len() - 1 && (#[trigger] us[i]) is Space && is_blank_run(us[i]->Space_0)
            ==> !starts_blank(unit_text(us[i + 1]))
}

/// A sequence of units that the reader gives back from its text.
pub open spec fn stream_ok(us: Seq<UnitModel>) -> bool {
    &&& forall|i: int| 0 <= i < us.len() ==> unit_ok(#[trigger] us[i])
    &&& seams_ok(us)
}

} // verus!
