//! Laws of the reader, proved over the grammar and the canonical text.
use vstd::prelude::*;

use crate::grammar::{
    children, flag_prefix, in_class, is_flag_char, is_reserved, is_suffix, lemma_skip_suffix,
    lemma_slots_suffix, lemma_sub_unit_suffix, lemma_sub_units_suffix, lemma_suffix_trans,
    lemma_text, lexical_unit, plain_unit, run_len, slots, stream, stream_unit, sub_unit, sub_units,
    tag_list, tag_token, CharClass,
};
use crate::render::{
    escaped, flag_text, is_blank_run, is_plain, list_ok, list_text, seams_ok, slots_text,
    starts_blank, starts_space, stream_ok, sub_ok, sub_text, tag_ok, tags_text, unit_ok, unit_text,
    units_text,
};
use crate::types::{ErrorKind, Flag, SubLUModel, UnitModel};

verus! {

proof fn lemma_escaped_reads(l: Seq<char>, t: Seq<char>)
    requires
        t.len() == 0 || (is_reserved(t[0]) && t[0] != '\\'),
    ensures
        lemma_text(escaped(l) + t) == Ok::<(Seq<char>, Seq<char>), (ErrorKind, nat)>((l, t)),
    decreases l.len(),
{
    let s = escaped(l) + t;
    if l.len() == 0 {
        assert(s =~= t);
        assert(l =~= seq![]);
    } else {
        lemma_escaped_reads(l.skip(1), t);
        assert(seq![l[0]] + l.skip(1) =~= l);
        if is_reserved(l[0]) {
            assert(escaped(l) =~= seq!['\\', l[0]] + escaped(l.skip(1)));
            assert(s[0] == '\\' && s[1] == l[0]);
            assert(s.skip(2) =~= escaped(l.skip(1)) + t);
        } else {
            assert(escaped(l) =~= seq![l[0]] + escaped(l.skip(1)));
            assert(s[0] == l[0]);
            assert(s.skip(1) =~= escaped(l.skip(1)) + t);
        }
    }
}

proof fn lemma_run_len_append(x: Seq<char>, y: Seq<char>, k: CharClass)
    requires
        forall|i: int| 0 <= i < x.len() ==> in_class(x[i], k),
    ensures
        run_len(x + y, k) == x.len() + run_len(y, k),
    decreases x.len(),
{
    if x.len() == 0 {
        assert(x + y =~= y);
    } else {
        lemma_run_len_append(x.skip(1), y, k);
        assert((x + y).skip(1) =~= x.skip(1) + y);
    }
}

proof fn lemma_tags_read(ts: Seq<Seq<char>>, t: Seq<char>)
    requires
        forall|i: int| 0 <= i < ts.len() ==> tag_ok(#[trigger] ts[i]),
        t.len() == 0 || t[0] != '<',
    ensures
        tag_list(tags_text(ts) + t) == (ts, t),
    decreases ts.len(),
{
    let s = tags_text(ts) + t;
    if ts.len() == 0 {
        assert(s =~= t);
        assert(ts =~= seq![]);
    } else {
        let x = ts[0];
        let rest = tags_text(ts.skip(1)) + t;
        assert(tag_ok(ts[0]));
        assert(s =~= seq!['<'] + x + (seq!['>'] + rest));
        assert(s.skip(1) =~= x + (seq!['>'] + rest));
        lemma_run_len_append(x, seq!['>'] + rest, CharClass::TagText);
        assert(s.subrange(1, x.len() as int + 1) =~= x);
        assert(s.skip(x.len() as int + 2) =~= rest);
        lemma_tags_read(ts.skip(1), t);
        assert(seq![x] + ts.skip(1) =~= ts);
    }
}

/// What may follow the text of sub-unit `a` without being read into it.
pub open spec fn ends_sub(a: SubLUModel, t: Seq<char>) -> bool {
    t.len() > 0 && (t[0] == '/' || t[0] == '$' || t[0] == '{' || (t[0] == '+' && a.tags.len() > 0))
}

proof fn lemma_sub_reads(a: SubLUModel, t: Seq<char>)
    requires
        sub_ok(a),
        ends_sub(a, t),
    ensures
        sub_unit(sub_text(a) + t) == Ok::<(SubLUModel, Seq<char>), (ErrorKind, nat)>((a, t)),
{
    let l = a.ling_form;
    let ts = a.tags;
    let after = tags_text(ts) + t;
    let body = escaped(l) + after;
    let s = sub_text(a) + t;
    assert(s =~= flag_text(a.flag) + body);
    if ts.len() > 0 {
        assert(after[0] == '<');
    } else {
        assert(after =~= t);
    }
    lemma_escaped_reads(l, after);
    lemma_tags_read(ts, t);
    if l.len() > 0 {
        assert(body[0] == escaped(l)[0]);
    } else {
        assert(body =~= after);
    }
    if a.flag != Flag::Nothing {
        assert(s.skip(1) =~= body);
    } else {
        assert(s =~= body);
        assert(!is_flag_char(s[0]));
    }
}

proof fn lemma_list_ok_tail(xs: Seq<SubLUModel>, sep: char)
    requires
        xs.len() > 0,
        list_ok(xs, sep),
    ensures
        list_ok(xs.skip(1), sep),
        sub_ok(xs[0]),
{
    assert(sub_ok(xs[0]));
    assert forall|i: int| 0 <= i < xs.skip(1).len() implies sub_ok(#[trigger] xs.skip(1)[i]) by {
        assert(xs.skip(1)[i] == xs[i + 1]);
    }
    assert forall|i: int| 0 <= i < xs.skip(1).len() - 1 implies sep == '/' || (
    #[trigger] xs.skip(1)[i]).tags.len() > 0 by {
        assert(xs.skip(1)[i] == xs[i + 1]);
    }
}

proof fn lemma_list_reads(xs: Seq<SubLUModel>, sep: char, t: Seq<char>)
    requires
        xs.len() > 0,
        list_ok(xs, sep),
        sep == '/' || sep == '+',
        t.len() > 0,
        t[0] == '$' || (t[0] == '/' && sep == '+'),
    ensures
        sub_units(list_text(xs, sep) + t, sep) == Ok::<(Seq<SubLUModel>, Seq<char>), (ErrorKind, nat)>((xs, t)),
    decreases xs.len(),
{
    lemma_list_ok_tail(xs, sep);
    if xs.len() == 1 {
        lemma_sub_reads(xs[0], t);
        assert(seq![xs[0]] =~= xs);
    } else {
        let r = seq![sep] + (list_text(xs.skip(1), sep) + t);
        assert(list_text(xs, sep) + t =~= sub_text(xs[0]) + r);
        assert(sep == '/' || xs[0].tags.len() > 0);
        lemma_sub_reads(xs[0], r);
        assert(r.skip(1) =~= list_text(xs.skip(1), sep) + t);
        lemma_list_reads(xs.skip(1), sep, t);
        assert(seq![xs[0]] + xs.skip(1) =~= xs);
    }
}

/// A well-formed joined group: not empty, and each member but the last
/// ends in a tag.
pub open spec fn slots_ok(xs: Seq<Seq<SubLUModel>>) -> bool {
    forall|i: int| 0 <= i < xs.len() ==> (#[trigger] xs[i]).len() > 0 && list_ok(xs[i], '+')
}

proof fn lemma_slots_reads(xs: Seq<Seq<SubLUModel>>, t: Seq<char>)
    requires
        xs.len() > 0,
        slots_ok(xs),
        t.len() > 0,
        t[0] == '$',
    ensures
        slots(slots_text(xs) + t) == Ok::<(Seq<Seq<SubLUModel>>, Seq<char>), (ErrorKind, nat)>((xs, t)),
    decreases xs.len(),
{
    assert(xs[0].len() > 0 && list_ok(xs[0], '+'));
    if xs.len() == 1 {
        lemma_list_reads(xs[0], '+', t);
        assert(seq![xs[0]] =~= xs);
    } else {
        let r = seq!['/'] + (slots_text(xs.skip(1)) + t);
        assert(slots_text(xs) + t =~= list_text(xs[0], '+') + r);
        lemma_list_reads(xs[0], '+', r);
        assert(r.skip(1) =~= slots_text(xs.skip(1)) + t);
        assert forall|i: int| 0 <= i < xs.skip(1).len() implies (#[trigger] xs.skip(1)[i]).len() > 0
            && list_ok(xs.skip(1)[i], '+') by {
            assert(xs.skip(1)[i] == xs[i + 1]);
        }
        lemma_slots_reads(xs.skip(1), t);
        assert(seq![xs[0]] + xs.skip(1) =~= xs);
    }
}

/// Read as plain analyses, the text of a joined unit with some group of two
/// or more stops at a `+`.
proof fn lemma_joined_stops_plain(xs: Seq<Seq<SubLUModel>>, t: Seq<char>)
    requires
        xs.len() > 0,
        slots_ok(xs),
        exists|i: int| 0 <= i < xs.len() && (#[trigger] xs[i]).len() > 1,
        t.len() > 0,
        t[0] == '$',
    ensures
        sub_units(slots_text(xs) + t, '/') matches Ok((_, r)) && r.len() > 0 && r[0] == '+',
    decreases xs.len(),
{
    let k = choose|i: int| 0 <= i < xs.len() && (#[trigger] xs[i]).len() > 1;
    let x0 = xs[0];
    assert(x0.len() > 0 && list_ok(x0, '+'));
    lemma_list_ok_tail(x0, '+');
    if x0.len() > 1 {
        assert(x0[0].tags.len() > 0);
        let r = seq!['+'] + list_text(x0.skip(1), '+');
        assert(list_text(x0, '+') =~= sub_text(x0[0]) + r);
        let rr = if xs.len() == 1 {
            r + t
        } else {
            r + (seq!['/'] + slots_text(xs.skip(1)) + t)
        };
        assert(slots_text(xs) + t =~= sub_text(x0[0]) + rr);
        lemma_sub_reads(x0[0], rr);
    } else {
        assert(k != 0);
        assert(xs.len() > 1);
        let r = seq!['/'] + (slots_text(xs.skip(1)) + t);
        assert(list_text(x0, '+') == sub_text(x0[0]));
        assert(slots_text(xs) + t =~= sub_text(x0[0]) + r);
        lemma_sub_reads(x0[0], r);
        assert(r.skip(1) =~= slots_text(xs.skip(1)) + t);
        assert(xs.skip(1)[k - 1] == xs[k]);
        assert forall|i: int| 0 <= i < xs.skip(1).len() implies (#[trigger] xs.skip(1)[i]).len() > 0
            && list_ok(xs.skip(1)[i], '+') by {
            assert(xs.skip(1)[i] == xs[i + 1]);
        }
        lemma_joined_stops_plain(xs.skip(1), t);
    }
}

/// The first character of a sub-unit's text is never a delimiter of units.
proof fn lemma_sub_text_first(a: SubLUModel)
    ensures
        sub_text(a).len() > 0 ==> ({
            let c = sub_text(a)[0];
            is_flag_char(c) || c == '\\' || c == '<' || !is_reserved(c)
        }),
{
    let l = a.ling_form;
    if a.flag == Flag::Nothing && l.len() > 0 {
        assert(sub_text(a)[0] == escaped(l)[0]);
    }
    if a.flag == Flag::Nothing && l.len() == 0 && a.tags.len() > 0 {
        assert(sub_text(a)[0] == tags_text(a.tags)[0]);
    }
}

/// The text of a non-empty list never starts with `$`, and is empty only
/// for one sub-unit with empty text.
proof fn lemma_list_text_first(xs: Seq<SubLUModel>, sep: char)
    requires
        xs.len() > 0,
        sep == '/' || sep == '+',
    ensures
        list_text(xs, sep).len() > 0 ==> list_text(xs, sep)[0] != '$',
        list_text(xs, sep).len() == 0 ==> xs.len() == 1 && sub_text(xs[0]).len() == 0,
{
    lemma_sub_text_first(xs[0]);
    if xs.len() > 1 {
        let r = seq![sep] + list_text(xs.skip(1), sep);
        assert(list_text(xs, sep) =~= sub_text(xs[0]) + r);
        if sub_text(xs[0]).len() > 0 {
            assert(list_text(xs, sep)[0] == sub_text(xs[0])[0]);
        } else {
            assert(list_text(xs, sep)[0] == sep);
        }
    }
}

/// Where no unit shape starts: at `}` or at the end of the text.
proof fn lemma_plain_no_match(t: Seq<char>)
    requires
        t.len() == 0 || t[0] == '}',
    ensures
        plain_unit(t) matches Err((ErrorKind::NoMatch, _)),
        stream_unit(t) matches Err((ErrorKind::NoMatch, _)),
{
    if t.len() == 0 {
        assert(sub_unit(t) is Ok) by {
            assert(lemma_text(t) is Ok);
            assert(tag_token(t) is None);
        }
    } else {
        lemma_sub_text_first_char_brace(t);
    }
}

proof fn lemma_sub_text_first_char_brace(t: Seq<char>)
    requires
        t.len() > 0,
        t[0] == '}',
    ensures
        sub_unit(t) matches Ok((_, r)) && r == t,
{
    assert(lemma_text(t) == Ok::<(Seq<char>, Seq<char>), (ErrorKind, nat)>((seq![], t)));
    assert(tag_token(t) is None);
}

/// Whether text `t` may follow unit `u` without being read into it.
pub open spec fn follows_ok(u: UnitModel, t: Seq<char>) -> bool {
    u is Space && is_blank_run(u->Space_0) ==> !starts_blank(t)
}

proof fn lemma_space_reads(x: Seq<char>, t: Seq<char>)
    requires
        is_blank_run(x) || x == seq!['\n'],
        is_blank_run(x) ==> !starts_blank(t),
    ensures
        plain_unit(x + t) == Ok::<(UnitModel, Seq<char>), (ErrorKind, nat)>((UnitModel::Space(x), t)),
{
    let s = x + t;
    if is_blank_run(x) {
        lemma_run_len_append(x, t, CharClass::Blank);
        assert(run_len(t, CharClass::Blank) == 0);
        assert(s.take(x.len() as int) =~= x);
        assert(s.skip(x.len() as int) =~= t);
    } else {
        assert(s[0] == '\n');
        assert(run_len(s, CharClass::Blank) == 0);
        assert(s.skip(1) =~= t);
    }
}

proof fn lemma_format_reads(x: Seq<char>, t: Seq<char>)
    requires
        x.len() > 0,
        forall|i: int| 0 <= i < x.len() ==> in_class(x[i], CharClass::FormatText),
    ensures
        plain_unit(seq!['['] + x + seq![']'] + t) == Ok::<(UnitModel, Seq<char>), (ErrorKind, nat)>(
            (UnitModel::Format(x), t),
        ),
{
    let s = seq!['['] + x + seq![']'] + t;
    assert(s =~= seq!['['] + x + (seq![']'] + t));
    assert(s.skip(1) =~= x + (seq![']'] + t));
    lemma_run_len_append(x, seq![']'] + t, CharClass::FormatText);
    assert(s.subrange(1, x.len() as int + 1) =~= x);
    assert(s.skip(x.len() as int + 2) =~= t);
    assert(run_len(s, CharClass::Blank) == 0);
}

proof fn lemma_lexical_reads(xs: Seq<SubLUModel>, t: Seq<char>)
    requires
        list_ok(xs, '/'),
        !(xs.len() == 1 && sub_text(xs[0]).len() == 0),
    ensures
        plain_unit(seq!['^'] + list_text(xs, '/') + seq!['$'] + t) == Ok::<
            (UnitModel, Seq<char>),
            (ErrorKind, nat),
        >((UnitModel::LexicalUnit(xs), t)),
{
    let s = seq!['^'] + list_text(xs, '/') + seq!['$'] + t;
    assert(run_len(s, CharClass::Blank) == 0);
    if xs.len() == 0 {
        assert(list_text(xs, '/') =~= seq![]);
        assert(s.skip(2) =~= t);
        assert(xs =~= seq![]);
    } else {
        let r = seq!['$'] + t;
        lemma_list_text_first(xs, '/');
        assert(s.skip(1) =~= list_text(xs, '/') + r);
        assert(s[1] == (list_text(xs, '/') + r)[0]);
        lemma_list_reads(xs, '/', r);
        assert(r.skip(1) =~= t);
    }
}

proof fn lemma_joined_reads(xs: Seq<Seq<SubLUModel>>, t: Seq<char>)
    requires
        xs.len() > 0,
        slots_ok(xs),
        exists|i: int| 0 <= i < xs.len() && (#[trigger] xs[i]).len() > 1,
    ensures
        plain_unit(seq!['^'] + slots_text(xs) + seq!['$'] + t) == Ok::<
            (UnitModel, Seq<char>),
            (ErrorKind, nat),
        >((UnitModel::JoinedLexicalUnit(xs), t)),
{
    let s = seq!['^'] + slots_text(xs) + seq!['$'] + t;
    assert(run_len(s, CharClass::Blank) == 0);
    let r = seq!['$'] + t;
    assert(s.skip(1) =~= slots_text(xs) + r);
    assert(s[1] == (slots_text(xs) + r)[0]);
    assert(xs[0].len() > 0 && list_ok(xs[0], '+'));
    lemma_list_text_first(xs[0], '+');
    if xs.len() > 1 {
        assert(slots_text(xs) =~= list_text(xs[0], '+') + (seq!['/'] + slots_text(xs.skip(1))));
    } else {
        let k = choose|i: int| 0 <= i < xs.len() && (#[trigger] xs[i]).len() > 1;
        assert(k == 0);
    }
    lemma_joined_stops_plain(xs, r);
    lemma_slots_reads(xs, r);
    assert(r.skip(1) =~= t);
}

proof fn lemma_plain_reads(u: UnitModel, t: Seq<char>)
    requires
        unit_ok(u),
        is_plain(u),
        follows_ok(u, t),
    ensures
        plain_unit(unit_text(u) + t) == Ok::<(UnitModel, Seq<char>), (ErrorKind, nat)>((u, t)),
{
    match u {
        UnitModel::Space(x) => lemma_space_reads(x, t),
        UnitModel::Format(x) => lemma_format_reads(x, t),
        UnitModel::LexicalUnit(xs) => lemma_lexical_reads(xs, t),
        UnitModel::JoinedLexicalUnit(xs) => {
            assert(slots_ok(xs));
            lemma_joined_reads(xs, t);
        },
        UnitModel::Chunk(_, _) => {},
    }
}

proof fn lemma_seams_tail(us: Seq<UnitModel>)
    requires
        us.len() > 0,
        seams_ok(us),
    ensures
        seams_ok(us.skip(1)),
{
    assert forall|i: int|
        0 <= i < us.skip(1).len() - 1 && (#[trigger] us.skip(1)[i]) is Space && is_blank_run(
            us.skip(1)[i]->Space_0,
        ) implies !starts_blank(unit_text(us.skip(1)[i + 1])) by {
        assert(us.skip(1)[i] == us[i + 1]);
        assert(us.skip(1)[i + 1] == us[i + 2]);
    }
}

/// The text of a unit that reads back is never empty.
proof fn lemma_unit_text_nonempty(u: UnitModel)
    requires
        unit_ok(u),
    ensures
        unit_text(u).len() > 0,
{
    if let UnitModel::Chunk(h, cs) = u {
            }
}

/// The text that follows the first unit of `us`, then `t`, may follow it.
proof fn lemma_first_follows(us: Seq<UnitModel>, t: Seq<char>)
    requires
        us.len() > 0,
        forall|i: int| 0 <= i < us.len() ==> unit_ok(#[trigger] us[i]),
        seams_ok(us),
        us.len() == 1 ==> follows_ok(us[0], t),
    ensures
        follows_ok(us[0], units_text(us.skip(1)) + t),
{
    if us.len() > 1 {
                assert(us.skip(1)[0] == us[1]);
        assert(unit_ok(us[1]));
        lemma_unit_text_nonempty(us[1]);
        let n = unit_text(us[1]);
        assert((n + units_text(us.skip(1).skip(1)) + t)[0] == n[0]);
        assert(units_text(us.skip(1)) + t =~= n + units_text(us.skip(1).skip(1)) + t);
    } else {
        assert(units_text(us.skip(1)) =~= seq![]);
        assert(units_text(us.skip(1)) + t =~= t);
    }
}

proof fn lemma_children_reads(cs: Seq<UnitModel>, t: Seq<char>)
    requires
        forall|i: int| 0 <= i < cs.len() ==> is_plain(#[trigger] cs[i]) && unit_ok(cs[i]),
        seams_ok(cs),
        t.len() > 0,
        t[0] == '}',
    ensures
        children(units_text(cs) + t) == Ok::<(Seq<UnitModel>, Seq<char>), (ErrorKind, nat)>((cs, t)),
    decreases cs.len(),
{
    if cs.len() == 0 {
        assert(units_text(cs) =~= seq![]);
        assert(units_text(cs) + t =~= t);
        lemma_plain_no_match(t);
        assert(cs =~= seq![]);
    } else {
        let rest = units_text(cs.skip(1)) + t;
                assert(units_text(cs) + t =~= unit_text(cs[0]) + rest);
        assert(is_plain(cs[0]) && unit_ok(cs[0]));
        lemma_first_follows(cs, t);
        lemma_plain_reads(cs[0], rest);
        lemma_seams_tail(cs);
        assert forall|i: int| 0 <= i < cs.skip(1).len() implies is_plain(#[trigger] cs.skip(1)[i])
            && unit_ok(cs.skip(1)[i]) by {
            assert(cs.skip(1)[i] == cs[i + 1]);
        }
        lemma_children_reads(cs.skip(1), t);
        assert(seq![cs[0]] + cs.skip(1) =~= cs);
    }
}

proof fn lemma_unit_reads(u: UnitModel, t: Seq<char>)
    requires
        unit_ok(u),
        follows_ok(u, t),
    ensures
        stream_unit(unit_text(u) + t) == Ok::<(UnitModel, Seq<char>), (ErrorKind, nat)>((u, t)),
{
    if let UnitModel::Chunk(h, cs) = u {
        let s = unit_text(u) + t;
        let r = seq!['{'] + units_text(cs) + seq!['}'] + t;
                assert(s =~= sub_text(h) + r);
        lemma_sub_text_first(h);
        let c = (sub_text(h) + seq!['{'])[0];
        assert(s[0] == c);
        assert(!starts_space(sub_text(h) + seq!['{']));
        assert(run_len(s, CharClass::Blank) == 0);
        lemma_sub_reads(h, r);
        assert(r.skip(1) =~= units_text(cs) + (seq!['}'] + t));
        lemma_children_reads(cs, seq!['}'] + t);
        assert((seq!['}'] + t).skip(1) =~= t);
    } else {
        lemma_plain_reads(u, t);
    }
}

proof fn lemma_stream_reads(us: Seq<UnitModel>)
    requires
        stream_ok(us),
    ensures
        stream(units_text(us)) == Ok::<(Seq<UnitModel>, Seq<char>), (ErrorKind, nat)>((us, seq![])),
    decreases us.len(),
{
    if us.len() == 0 {
        assert(units_text(us) =~= seq![]);
        lemma_plain_no_match(seq![]);
        assert(us =~= seq![]);
    } else {
        let e: Seq<char> = seq![];
        let rest = units_text(us.skip(1));
                lemma_first_follows(us, e);
        assert(rest + e =~= rest);
        assert(unit_ok(us[0]));
        lemma_unit_reads(us[0], rest);
        lemma_seams_tail(us);
        assert forall|i: int| 0 <= i < us.skip(1).len() implies unit_ok(#[trigger] us.skip(1)[i]) by {
            assert(us.skip(1)[i] == us[i + 1]);
        }
        lemma_stream_reads(us.skip(1));
        assert(seq![us[0]] + us.skip(1) =~= us);
    }
}

/// Round trip: a sequence of units that the reader can give back (see
/// `stream_ok`), written out in canonical form and concatenated, reads back
/// as the same units, with nothing left over. Lemma text comes back
/// unescaped, so escaping is normalised along the way.
pub proof fn round_trip(us: Seq<UnitModel>)
    requires
        stream_ok(us),
    ensures
        stream(units_text(us)) == Ok::<(Seq<UnitModel>, Seq<char>), (ErrorKind, nat)>((us, seq![])),
{
    lemma_stream_reads(us);
}

/// No `$` and no backslash anywhere in `s`.
pub open spec fn without_closer(s: Seq<char>) -> bool {
    forall|i: int| 0 <= i < s.len() ==> s[i] != '$' && s[i] != '\\'
}

proof fn lemma_without_closer_suffix(r: Seq<char>, s: Seq<char>)
    requires
        without_closer(s),
        is_suffix(r, s),
    ensures
        without_closer(r),
{
    assert forall|i: int| 0 <= i < r.len() implies r[i] != '$' && r[i] != '\\' by {
        assert(r[i] == s[s.len() - r.len() + i]);
    }
}

proof fn lemma_lemma_text_ok(s: Seq<char>)
    requires
        without_closer(s),
    ensures
        lemma_text(s) is Ok,
    decreases s.len(),
{
    if s.len() > 0 {
        lemma_skip_suffix(s, 1);
        lemma_without_closer_suffix(s.skip(1), s);
        lemma_lemma_text_ok(s.skip(1));
    }
}

proof fn lemma_sub_units_ok(s: Seq<char>, sep: char)
    requires
        without_closer(s),
    ensures
        sub_units(s, sep) is Ok,
    decreases s.len(),
{
    let r0 = flag_prefix(s).1;
    if s.len() > 0 && is_flag_char(s[0]) {
        lemma_skip_suffix(s, 1);
    } else {
        assert(s.skip(0) =~= s);
        lemma_skip_suffix(s, 0);
    }
    lemma_without_closer_suffix(r0, s);
    lemma_lemma_text_ok(r0);
    lemma_sub_unit_suffix(s);
    if let Ok((a, r)) = sub_unit(s) {
        if r.len() > 0 && r[0] == sep {
            lemma_skip_suffix(r, 1);
            lemma_suffix_trans(r.skip(1), r, s);
            lemma_without_closer_suffix(r.skip(1), s);
            lemma_sub_units_ok(r.skip(1), sep);
        }
    }
}

proof fn lemma_slots_ok(s: Seq<char>)
    requires
        without_closer(s),
    ensures
        slots(s) is Ok,
    decreases s.len(),
{
    lemma_sub_units_ok(s, '+');
    lemma_sub_units_suffix(s, '+');
    if let Ok((a, r)) = sub_units(s, '+') {
        if r.len() > 0 && r[0] == '/' {
            lemma_skip_suffix(r, 1);
            lemma_suffix_trans(r.skip(1), r, s);
            lemma_without_closer_suffix(r.skip(1), s);
            lemma_slots_ok(r.skip(1));
        }
    }
}

/// A lexical unit opened with `^` and never closed with `$` (with no
/// backslash, which could fail first as an invalid escape) is an
/// unterminated unit, and reading a stream that starts with it fails: no
/// partial list of analyses comes back.
pub proof fn unclosed_unit_fails(s: Seq<char>)
    requires
        s.len() > 0,
        s[0] == '^',
        without_closer(s),
    ensures
        lexical_unit(s) matches Err((ErrorKind::UnterminatedUnit, _)),
        stream_unit(s) == lexical_unit(s),
        stream(s) is Err && stream(s)->Err_0 == lexical_unit(s)->Err_0,
{
    lemma_skip_suffix(s, 1);
    lemma_without_closer_suffix(s.skip(1), s);
    lemma_sub_units_ok(s.skip(1), '/');
    lemma_sub_units_suffix(s.skip(1), '/');
    lemma_slots_ok(s.skip(1));
    lemma_slots_suffix(s.skip(1));
    if s.len() > 1 {
        assert(s[1] != '$');
    }
    let r1 = sub_units(s.skip(1), '/')->Ok_0.1;
    lemma_suffix_trans(r1, s.skip(1), s);
    lemma_without_closer_suffix(r1, s);
    let r2 = slots(s.skip(1))->Ok_0.1;
    lemma_suffix_trans(r2, s.skip(1), s);
    lemma_without_closer_suffix(r2, s);
    if r1.len() > 0 {
        assert(r1[0] != '$');
    }
    if r2.len() > 0 {
        assert(r2[0] != '$');
    }
    assert(run_len(s, CharClass::Blank) == 0);
}

} // verus!
