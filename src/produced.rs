//! What the reader gives back is well formed: each value it returns reads
//! back from its canonical text.
use vstd::prelude::*;

use crate::grammar::{
    basic_unit, children, chunk_unit, flag_prefix, format_unit, in_class, is_reserved,
    joined_unit, lemma_text, lexical_unit, plain_unit, run_len, slots, space_unit,
    stream, stream_unit, sub_unit, sub_units, tag_list, tag_token, CharClass,
};
use crate::laws::{round_trip, slots_ok};
use crate::render::{
    escaped, is_blank_run, is_plain, list_ok, seams_ok, starts_blank, stream_ok,
    sub_ok, sub_text, tag_ok, tags_text, unit_ok, unit_text, flag_text,
};
use crate::types::{ErrorKind, Flag, SubLUModel, UnitModel};

verus! {

proof fn lemma_run_len_chars(s: Seq<char>, k: CharClass)
    ensures
        run_len(s, k) <= s.len(),
        forall|i: int| 0 <= i < run_len(s, k) ==> in_class(#[trigger] s[i], k),
        run_len(s, k) < s.len() ==> !in_class(s[run_len(s, k) as int], k),
    decreases s.len(),
{
    if s.len() > 0 && in_class(s[0], k) {
        lemma_run_len_chars(s.skip(1), k);
        assert forall|i: int| 0 <= i < run_len(s, k) implies in_class(#[trigger] s[i], k) by {
            if i > 0 {
                assert(s[i] == s.skip(1)[i - 1]);
            }
        }
    }
}

proof fn lemma_lemma_text_produced(s: Seq<char>)
    ensures
        lemma_text(s) matches Ok((l, r)) ==> {
            &&& r.len() == 0 || (is_reserved(r[0]) && r[0] != '\\')
            &&& l.len() == 0 ==> r == s
            &&& l.len() > 0 ==> s.len() > 0 && escaped(l)[0] == s[0]
        },
    decreases s.len(),
{
    if s.len() > 0 {
        if s[0] == '\\' && s.len() >= 2 && is_reserved(s[1]) {
            lemma_lemma_text_produced(s.skip(2));
        } else if !is_reserved(s[0]) {
            lemma_lemma_text_produced(s.skip(1));
        }
    }
}

proof fn lemma_tag_list_produced(s: Seq<char>)
    ensures
        forall|i: int| 0 <= i < tag_list(s).0.len() ==> tag_ok(#[trigger] tag_list(s).0[i]),
        tag_list(s).0.len() == 0 ==> tag_list(s).1 == s,
        tag_list(s).0.len() > 0 ==> s.len() > 0 && s[0] == '<',
    decreases s.len(),
{
    match tag_token(s) {
        Some((t, r)) => {
            let k = run_len(s.skip(1), CharClass::TagText) as int;
            lemma_run_len_chars(s.skip(1), CharClass::TagText);
            assert forall|i: int| 0 <= i < t.len() implies in_class(#[trigger] t[i], CharClass::TagText) by {
                assert(t[i] == s.skip(1)[i]);
            }
            lemma_tag_list_produced(r);
            let ts = tag_list(s).0;
            assert forall|i: int| 0 <= i < ts.len() implies tag_ok(#[trigger] ts[i]) by {
                if i > 0 {
                    assert(ts[i] == tag_list(r).0[i - 1]);
                }
            }
        },
        None => {},
    }
}

/// A sub-unit read from `s`: its tags are well formed; without tags it is
/// followed by the end or a reserved character; its text, where not empty,
/// starts with the character it was read from, and where empty nothing
/// was consumed.
pub open spec fn sub_produced(s: Seq<char>, a: SubLUModel, r: Seq<char>) -> bool {
    &&& sub_ok(a)
    &&& a.tags.len() == 0 ==> r.len() == 0 || (is_reserved(r[0]) && r[0] != '\\')
    &&& sub_text(a).len() == 0 ==> r == s
    &&& sub_text(a).len() > 0 ==> s.len() > 0 && sub_text(a)[0] == s[0]
}

proof fn lemma_sub_unit_produced(s: Seq<char>)
    ensures
        sub_unit(s) matches Ok((a, r)) ==> sub_produced(s, a, r),
{
    let (f, r0) = flag_prefix(s);
    lemma_lemma_text_produced(r0);
    if let Ok((l, r1)) = lemma_text(r0) {
        lemma_tag_list_produced(r1);
        let (ts, r2) = tag_list(r1);
        let a = SubLUModel { ling_form: l, flag: f, tags: ts };
        assert(sub_text(a) =~= flag_text(f) + escaped(l) + tags_text(ts));
        if f == Flag::Nothing {
            assert(r0 == s);
            if l.len() > 0 {
                assert(sub_text(a)[0] == escaped(l)[0]);
            } else if ts.len() > 0 {
                assert(sub_text(a)[0] == tags_text(ts)[0]);
            }
        }
    }
}

proof fn lemma_lemma_text_err(s: Seq<char>)
    ensures
        lemma_text(s) matches Err((k, _)) ==> k == ErrorKind::InvalidEscape,
    decreases s.len(),
{
    if s.len() > 0 {
        if s[0] == '\\' && s.len() >= 2 {
            lemma_lemma_text_err(s.skip(2));
        } else if s[0] != '\\' {
            lemma_lemma_text_err(s.skip(1));
        }
    }
}

/// Reading analyses fails only on an invalid escape.
proof fn lemma_sub_units_err(s: Seq<char>, sep: char)
    ensures
        sub_units(s, sep) matches Err((k, _)) ==> k == ErrorKind::InvalidEscape,
    decreases s.len(),
{
    lemma_lemma_text_err(flag_prefix(s).1);
    crate::grammar::lemma_sub_unit_suffix(s);
    if let Ok((a, r0)) = sub_unit(s) {
        if r0.len() > 0 && r0[0] == sep {
            lemma_sub_units_err(r0.skip(1), sep);
        }
    }
}

/// A list read with separator `sep`.
pub open spec fn list_produced(s: Seq<char>, xs: Seq<SubLUModel>, r: Seq<char>, sep: char) -> bool {
    &&& xs.len() > 0
    &&& list_ok(xs, sep)
    &&& xs.len() == 1 && sub_text(xs[0]).len() == 0 ==> r == s
}

proof fn lemma_sub_units_produced(s: Seq<char>, sep: char)
    requires
        sep == '/' || sep == '+',
    ensures
        sub_units(s, sep) matches Ok((xs, r)) ==> list_produced(s, xs, r, sep),
    decreases s.len(),
{
    lemma_sub_unit_produced(s);
    crate::grammar::lemma_sub_unit_suffix(s);
    if let Ok((a, r0)) = sub_unit(s) {
        if r0.len() > 0 && r0[0] == sep {
            lemma_sub_units_produced(r0.skip(1), sep);
            if let Ok((ys, r)) = sub_units(r0.skip(1), sep) {
                let xs = seq![a] + ys;
                assert(sep == '/' || a.tags.len() > 0);
                assert forall|i: int| 0 <= i < xs.len() implies sub_ok(#[trigger] xs[i]) by {
                    if i > 0 {
                        assert(xs[i] == ys[i - 1]);
                    }
                }
                assert forall|i: int| 0 <= i < xs.len() - 1 implies sep == '/' || (
                #[trigger] xs[i]).tags.len() > 0 by {
                    if i > 0 {
                        assert(xs[i] == ys[i - 1]);
                    }
                }
            }
        } else {
            assert(list_ok(seq![a], sep));
        }
    }
}

proof fn lemma_slots_produced(s: Seq<char>)
    ensures
        slots(s) matches Ok((xs, r)) ==> xs.len() > 0 && slots_ok(xs),
    decreases s.len(),
{
    lemma_sub_units_produced(s, '+');
    crate::grammar::lemma_sub_units_suffix(s, '+');
    if let Ok((a, r0)) = sub_units(s, '+') {
        if r0.len() > 0 && r0[0] == '/' {
            lemma_slots_produced(r0.skip(1));
            if let Ok((ys, r)) = slots(r0.skip(1)) {
                let xs = seq![a] + ys;
                assert forall|i: int| 0 <= i < xs.len() implies (#[trigger] xs[i]).len() > 0
                    && list_ok(xs[i], '+') by {
                    if i > 0 {
                        assert(xs[i] == ys[i - 1]);
                    }
                }
            }
        }
    }
}

/// Where reading plain analyses stops at a `+`, reading joined groups from
/// the same text gives some group of two or more.
proof fn lemma_joined_witness(x: Seq<char>)
    ensures
        sub_units(x, '/') matches Ok((_, r)) && r.len() > 0 && r[0] == '+' ==> (slots(x) matches Ok((
            ys,
            _,
        )) ==> exists|i: int| 0 <= i < ys.len() && (#[trigger] ys[i]).len() > 1),
    decreases x.len(),
{
    crate::grammar::lemma_sub_unit_suffix(x);
    if let Ok((a, r0)) = sub_unit(x) {
        if r0.len() > 0 && r0[0] == '+' {
            if let Ok((ys, _)) = slots(x) {
                let first = sub_units(x, '+')->Ok_0.0;
                assert(ys[0] == first);
                assert(ys[0].len() > 1);
            }
        } else if r0.len() > 0 && r0[0] == '/' {
            lemma_joined_witness(r0.skip(1));
            if let Ok((ys, _)) = slots(x) {
                if sub_units(x, '/') matches Ok((_, r)) && r.len() > 0 && r[0] == '+' {
                    let zs = slots(r0.skip(1))->Ok_0.0;
                    let k = choose|i: int| 0 <= i < zs.len() && (#[trigger] zs[i]).len() > 1;
                    assert(ys[k + 1] == zs[k]);
                }
            }
        }
    }
}

/// A unit read from `s`: it reads back, and its text starts with the
/// character it was read from.
pub open spec fn unit_produced(s: Seq<char>, u: UnitModel) -> bool {
    &&& unit_ok(u)
    &&& unit_text(u).len() > 0
    &&& s.len() > 0
    &&& unit_text(u)[0] == s[0]
}

proof fn lemma_plain_unit_produced(s: Seq<char>)
    ensures
        plain_unit(s) matches Ok((u, r)) ==> unit_produced(s, u) && is_plain(u) && (u is Space
            && is_blank_run(u->Space_0) ==> !starts_blank(r)),
{
    lemma_run_len_chars(s, CharClass::Blank);
    lemma_run_len_chars(s.skip(1), CharClass::FormatText);
    if let Ok((u, r)) = plain_unit(s) {
        if space_unit(s) is Ok {
            let k = run_len(s, CharClass::Blank) as int;
            if k > 0 {
                assert(r == s.skip(k));
                if r.len() > 0 {
                    assert(r[0] == s[k]);
                }
                assert(unit_text(u) == s.take(k));
                assert(is_blank_run(s.take(k)));
            } else {
                assert(unit_text(u) =~= seq!['\n']);
            }
            assert(unit_produced(s, u));
        } else if format_unit(s) is Ok {
            let k = run_len(s.skip(1), CharClass::FormatText) as int;
            let t = s.subrange(1, k + 1);
            assert forall|i: int| 0 <= i < t.len() implies in_class(t[i], CharClass::FormatText) by {
                assert(t[i] == s.skip(1)[i]);
            }
            assert(unit_produced(s, u));
        } else if basic_unit(s) is Ok {
            if !(s.len() > 1 && s[1] == '$') {
                lemma_sub_units_produced(s.skip(1), '/');
                let (xs, r1) = sub_units(s.skip(1), '/')->Ok_0;
                if xs.len() == 1 && sub_text(xs[0]).len() == 0 {
                    assert(r1[0] == s.skip(1)[0]);
                }
            } else {
                assert(list_ok(Seq::<SubLUModel>::empty(), '/'));
            }
            assert(unit_produced(s, u));
        } else {
            assert(lexical_unit(s) == joined_unit(s));
            let x = s.skip(1);
            assert(s[0] == '^');
            assert(!(s.len() > 1 && s[1] == '$'));
            if sub_unit(x) is Err {
                assert(sub_units(x, '+') is Err);
                assert(slots(x) is Err);
            }
            lemma_sub_units_err(x, '/');
            assert(sub_units(x, '/') is Ok);
            lemma_slots_produced(x);
            lemma_joined_witness(x);
            let xs = slots(x)->Ok_0.0;
            assert(u == UnitModel::JoinedLexicalUnit(xs));
            assert(exists|i: int| 0 <= i < xs.len() && (#[trigger] xs[i]).len() > 1);
            assert(unit_ok(u));
            assert(unit_produced(s, u));
        }
    }
}

proof fn lemma_children_produced(s: Seq<char>)
    ensures
        children(s) matches Ok((cs, r)) ==> {
            &&& forall|i: int| 0 <= i < cs.len() ==> is_plain(#[trigger] cs[i]) && unit_ok(cs[i])
            &&& seams_ok(cs)
            &&& cs.len() > 0 ==> unit_produced(s, cs[0])
        },
    decreases s.len(),
{
    crate::grammar::lemma_plain_unit_suffix(s);
    lemma_plain_unit_produced(s);
    if let Ok((u, r)) = plain_unit(s) {
        lemma_children_produced(r);
        if let Ok((ds, _)) = children(r) {
            let cs = seq![u] + ds;
            assert(cs[0] == u);
            assert forall|i: int| 0 <= i < cs.len() implies is_plain(#[trigger] cs[i]) && unit_ok(cs[i]) by {
                if i > 0 {
                    assert(cs[i] == ds[i - 1]);
                }
            }
            assert forall|i: int|
                0 <= i < cs.len() - 1 && (#[trigger] cs[i]) is Space && is_blank_run(cs[i]->Space_0)
                    implies !starts_blank(unit_text(cs[i + 1])) by {
                assert(cs[i + 1] == ds[i]);
                if i > 0 {
                    assert(cs[i] == ds[i - 1]);
                }
            }
        }
    }
}

proof fn lemma_stream_unit_produced(s: Seq<char>)
    ensures
        stream_unit(s) matches Ok((u, r)) ==> unit_produced(s, u) && (u is Space && is_blank_run(
            u->Space_0,
        ) ==> !starts_blank(r)),
{
    lemma_plain_unit_produced(s);
    if plain_unit(s) is Err {
        if let Ok((u, r)) = chunk_unit(s) {
            let (h, r0) = sub_unit(s)->Ok_0;
            lemma_sub_unit_produced(s);
            let r1 = r0.skip(1);
            lemma_children_produced(r1);
            let ht = sub_text(h) + seq!['{'];
            if sub_text(h).len() > 0 {
                assert(ht[0] == sub_text(h)[0]);
            } else {
                assert(ht[0] == '{');
                assert(s[0] == r0[0]);
            }
            lemma_run_len_chars(s, CharClass::Blank);
            assert(unit_text(u) =~= ht + (crate::render::units_text(u->Chunk_1) + seq!['}']));
        }
    }
}

proof fn lemma_stream_produced(s: Seq<char>)
    ensures
        stream(s) matches Ok((us, r)) ==> stream_ok(us) && (us.len() > 0 ==> unit_produced(s, us[0])),
    decreases s.len(),
{
    crate::grammar::lemma_stream_unit_suffix(s);
    lemma_stream_unit_produced(s);
    if let Ok((u, r)) = stream_unit(s) {
        lemma_stream_produced(r);
        if let Ok((ds, _)) = stream(r) {
            let us = seq![u] + ds;
            assert(us[0] == u);
            assert forall|i: int| 0 <= i < us.len() implies unit_ok(#[trigger] us[i]) by {
                if i > 0 {
                    assert(us[i] == ds[i - 1]);
                }
            }
            assert forall|i: int|
                0 <= i < us.len() - 1 && (#[trigger] us[i]) is Space && is_blank_run(us[i]->Space_0)
                    implies !starts_blank(unit_text(us[i + 1])) by {
                assert(us[i + 1] == ds[i]);
                if i > 0 {
                    assert(us[i] == ds[i - 1]);
                }
            }
        }
    }
}

/// Every sequence of units that the reader returns is well formed, and so
/// reads back from its canonical text as the same units.
pub proof fn produced_streams_read_back(s: Seq<char>)
    ensures
        stream(s) matches Ok((us, _)) ==> stream_ok(us) && stream(crate::render::units_text(us))
            == Ok::<(Seq<UnitModel>, Seq<char>), (ErrorKind, nat)>((us, seq![])),
{
    lemma_stream_produced(s);
    if let Ok((us, _)) = stream(s) {
        round_trip(us);
    }
}

} // verus!
