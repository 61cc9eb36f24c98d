use apertium_stream::{
    make_flag, parse_basic_lu, parse_chunk, parse_format, parse_joined_lu,
    parse_lu_or_space_or_format, parse_space, parse_stream, parse_stream_unit, parse_sub_lu,
    parse_sub_lu_basic, parse_sub_lu_without_ling_form, ErrorKind, Flag, ParseError, StreamUnit,
    SubLU,
};

fn sub(form: &str, flag: Flag, tags: &[&str]) -> SubLU {
    SubLU {
        ling_form: String::from(form),
        flag,
        tags: tags.iter().map(|t| String::from(*t)).collect(),
    }
}

fn err(kind: ErrorKind, offset: usize) -> ParseError {
    ParseError { kind, offset }
}

#[test]
fn single_plain_unit() {
    assert_eq!(
        parse_stream("^ab$"),
        Ok(("", vec![StreamUnit::LexicalUnit(vec![sub("ab", Flag::Nothing, &[])])]))
    );
}

#[test]
fn unterminated_unit_is_an_error() {
    assert_eq!(
        parse_stream("^ab/xy<n>"),
        Err(err(ErrorKind::UnterminatedUnit, 9))
    );
    assert_eq!(
        parse_stream_unit("^ab"),
        Err(err(ErrorKind::UnterminatedUnit, 3))
    );
    assert_eq!(
        parse_stream("^ab<n>+cd<v>"),
        Err(err(ErrorKind::UnterminatedUnit, 12))
    );
}

#[test]
fn invalid_escape_is_an_error() {
    assert_eq!(parse_stream("^a\\b$"), Err(err(ErrorKind::InvalidEscape, 2)));
    assert_eq!(parse_stream("^a\\"), Err(err(ErrorKind::InvalidEscape, 2)));
}

#[test]
fn stream_stops_where_no_unit_starts() {
    assert_eq!(
        parse_stream("^a$ x"),
        Ok((
            "x",
            vec![
                StreamUnit::LexicalUnit(vec![sub("a", Flag::Nothing, &[])]),
                StreamUnit::Space(String::from(" ")),
            ]
        ))
    );
    assert_eq!(parse_stream(""), Ok(("", vec![])));
    assert_eq!(parse_stream("}"), Ok(("}", vec![])));
    assert_eq!(parse_stream_unit("}"), Err(err(ErrorKind::NoMatch, 0)));
}

#[test]
fn empty_body_has_no_analyses() {
    assert_eq!(parse_stream_unit("^$"), Ok(("", StreamUnit::LexicalUnit(vec![]))));
    assert_eq!(
        parse_stream_unit("^a/$"),
        Ok((
            "",
            StreamUnit::LexicalUnit(vec![
                sub("a", Flag::Nothing, &[]),
                sub("", Flag::Nothing, &[])
            ])
        ))
    );
}

#[test]
fn plus_inside_lemma_text() {
    assert_eq!(
        parse_stream_unit("^a+b$"),
        Ok(("", StreamUnit::LexicalUnit(vec![sub("a+b", Flag::Nothing, &[])])))
    );
}

#[test]
fn flags_of_each_marker() {
    assert_eq!(make_flag("*"), Flag::Unanalyzed);
    assert_eq!(make_flag("@"), Flag::Untranslated);
    assert_eq!(make_flag("#"), Flag::UnableToGenerateOrStartOfInvariablePart);
    assert_eq!(make_flag(""), Flag::Nothing);
    assert_eq!(make_flag("**"), Flag::Nothing);
    assert_eq!(make_flag("x"), Flag::Nothing);
    assert_eq!(
        parse_stream_unit("^#go<v>$"),
        Ok((
            "",
            StreamUnit::LexicalUnit(vec![sub(
                "go",
                Flag::UnableToGenerateOrStartOfInvariablePart,
                &["v"]
            )])
        ))
    );
    assert_eq!(
        parse_stream_unit("^@dog$"),
        Ok(("", StreamUnit::LexicalUnit(vec![sub("dog", Flag::Untranslated, &[])])))
    );
}

#[test]
fn escapes_in_lemma_text() {
    assert_eq!(
        parse_sub_lu("a\\#b\\/c<n>/"),
        Ok(("/", sub("a#b/c", Flag::Nothing, &["n"])))
    );
    assert_eq!(
        parse_stream_unit("^\\]<vblex><pres>$"),
        Ok(("", StreamUnit::LexicalUnit(vec![sub("]", Flag::Nothing, &["vblex", "pres"])])))
    );
}

#[test]
fn sub_unit_shapes() {
    assert_eq!(parse_sub_lu_basic("*<det>"), Err(err(ErrorKind::NoMatch, 0)));
    assert_eq!(
        parse_sub_lu_basic("*t<det>$"),
        Ok(("$", sub("t", Flag::Unanalyzed, &["det"])))
    );
    assert_eq!(
        parse_sub_lu_without_ling_form("*<det><sg>x"),
        Ok(("x", sub("", Flag::Unanalyzed, &["det", "sg"])))
    );
    assert_eq!(
        parse_sub_lu_without_ling_form("ab"),
        Ok(("ab", sub("", Flag::Nothing, &[])))
    );
    assert_eq!(
        parse_sub_lu("<n><>"),
        Ok(("<>", sub("", Flag::Nothing, &["n"])))
    );
}

#[test]
fn plain_and_joined_shapes() {
    assert_eq!(parse_basic_lu("^a<n>+b$"), Err(err(ErrorKind::NoMatch, 0)));
    assert_eq!(parse_basic_lu("x"), Err(err(ErrorKind::NoMatch, 0)));
    assert_eq!(
        parse_joined_lu("^a$!"),
        Ok(("!", StreamUnit::JoinedLexicalUnit(vec![vec![sub("a", Flag::Nothing, &[])]])))
    );
    assert_eq!(parse_joined_lu("^$"), Ok(("", StreamUnit::JoinedLexicalUnit(vec![]))));
    assert_eq!(
        parse_lu_or_space_or_format("^a<n>+<m>$"),
        Ok((
            "",
            StreamUnit::JoinedLexicalUnit(vec![vec![
                sub("a", Flag::Nothing, &["n"]),
                sub("", Flag::Nothing, &["m"])
            ]])
        ))
    );
}

#[test]
fn format_and_space() {
    assert_eq!(
        parse_format("[<b>]x"),
        Ok(("x", StreamUnit::Format(String::from("<b>"))))
    );
    assert_eq!(parse_format("[]"), Err(err(ErrorKind::UnterminatedUnit, 1)));
    assert_eq!(parse_format("[ab"), Err(err(ErrorKind::UnterminatedUnit, 3)));
    assert_eq!(parse_format("ab"), Err(err(ErrorKind::NoMatch, 0)));
    assert_eq!(
        parse_space(" \t x"),
        Ok(("x", StreamUnit::Space(String::from(" \t "))))
    );
    assert_eq!(
        parse_space("\n\n"),
        Ok(("\n", StreamUnit::Space(String::from("\n"))))
    );
    assert_eq!(parse_space("x"), Err(err(ErrorKind::NoMatch, 0)));
}

#[test]
fn chunk_shapes() {
    assert_eq!(
        parse_chunk("{}"),
        Ok(("", StreamUnit::Chunk(sub("", Flag::Nothing, &[]), vec![])))
    );
    assert_eq!(parse_chunk("N<a>{^x$"), Err(err(ErrorKind::UnterminatedUnit, 8)));
    assert_eq!(parse_chunk("N<a>"), Err(err(ErrorKind::NoMatch, 0)));
    assert_eq!(parse_chunk("a\\q{}"), Err(err(ErrorKind::NoMatch, 0)));
    assert_eq!(parse_stream("N{x{}}"), Err(err(ErrorKind::UnterminatedUnit, 2)));
}

#[test]
fn non_ascii_text_keeps_character_offsets() {
    assert_eq!(
        parse_stream("^กา$ ^ก"),
        Err(err(ErrorKind::UnterminatedUnit, 7))
    );
    assert_eq!(
        parse_stream("^กา$ }"),
        Ok((
            "}",
            vec![
                StreamUnit::LexicalUnit(vec![sub("กา", Flag::Nothing, &[])]),
                StreamUnit::Space(String::from(" ")),
            ]
        ))
    );
}

#[test]
fn rendered_stream_reads_back() {
    let text = "^\\^a\\$/b<n>$ \n[<p>]^c<x>+d$N<SN>{^e$\t[f]}";
    let (rest, units) = parse_stream(text).unwrap();
    assert_eq!(rest, "");
    assert_eq!(units.len(), 6);
    assert_eq!(
        units[0],
        StreamUnit::LexicalUnit(vec![sub("^a$", Flag::Nothing, &[]), sub("b", Flag::Nothing, &["n"])])
    );
    assert_eq!(units[1], StreamUnit::Space(String::from(" ")));
    assert_eq!(units[2], StreamUnit::Space(String::from("\n")));
    assert_eq!(
        units[4],
        StreamUnit::JoinedLexicalUnit(vec![vec![
            sub("c", Flag::Nothing, &["x"]),
            sub("d", Flag::Nothing, &[])
        ]])
    );
    assert_eq!(
        units[5],
        StreamUnit::Chunk(
            sub("N", Flag::Nothing, &["SN"]),
            vec![
                StreamUnit::LexicalUnit(vec![sub("e", Flag::Nothing, &[])]),
                StreamUnit::Space(String::from("\t")),
                StreamUnit::Format(String::from("f")),
            ]
        )
    );
}

fn escaped(t: &str) -> String {
    let mut out = String::new();
    for c in t.chars() {
        if "^$/<>{}\\[]*#@".contains(c) {
            out.push('\\');
        }
        out.push(c);
    }
    out
}

fn sub_text(a: &SubLU) -> String {
    let flag = match a.flag {
        Flag::Nothing => "",
        Flag::Unanalyzed => "*",
        Flag::Untranslated => "@",
        Flag::UnableToGenerateOrStartOfInvariablePart => "#",
    };
    let tags: String = a.tags.iter().map(|t| format!("<{}>", t)).collect();
    format!("{}{}{}", flag, escaped(&a.ling_form), tags)
}

fn unit_text(u: &StreamUnit) -> String {
    match u {
        StreamUnit::LexicalUnit(xs) => {
            let parts: Vec<String> = xs.iter().map(sub_text).collect();
            format!("^{}$", parts.join("/"))
        }
        StreamUnit::JoinedLexicalUnit(xss) => {
            let parts: Vec<String> = xss
                .iter()
                .map(|xs| xs.iter().map(sub_text).collect::<Vec<String>>().join("+"))
                .collect();
            format!("^{}$", parts.join("/"))
        }
        StreamUnit::Space(t) => t.clone(),
        StreamUnit::Format(t) => format!("[{}]", t),
        StreamUnit::Chunk(h, cs) => {
            let inner: String = cs.iter().map(unit_text).collect();
            format!("{}{{{}}}", sub_text(h), inner)
        }
    }
}

#[test]
fn canonical_text_reads_back_as_same_units() {
    let inputs = [
        "^ab/xy<n>$ ^cd$",
        "^\\^ab\\$$",
        "^ab/xy<n>+tx<a>$",
        "N1<SN><a>{^i$ [<o>]^j$[</o>]^k$}",
        "^*<det><ind><sg>$ \n\t^$[x]^a/$",
        "^a+b/#c<n>+@<m>$*h{}",
    ];
    for input in inputs.iter() {
        let (rest, units) = parse_stream(input).unwrap();
        assert_eq!(rest, "");
        let text: String = units.iter().map(unit_text).collect();
        let (rest2, again) = parse_stream(&text).unwrap();
        assert_eq!(rest2, "");
        assert_eq!(again, units);
    }
}
