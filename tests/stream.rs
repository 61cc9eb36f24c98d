use apertium_stream::{parse_stream, parse_stream_unit, parse_tag, Flag, StreamUnit, SubLU};

#[test]
fn basic_lu() {
    assert_eq!(
        parse_stream_unit("^กา$"),
        Ok((
            "",
            StreamUnit::LexicalUnit(vec![SubLU {
                ling_form: String::from("กา"),
                tags: vec![],
                flag: Flag::Nothing,
            }])
        ))
    );
}

#[test]
fn lu_surface_escape() {
    assert_eq!(
        parse_stream_unit("^\\^ab\\$$"),
        Ok((
            "",
            StreamUnit::LexicalUnit(vec![SubLU {
                ling_form: String::from("^ab$"),
                tags: vec![],
                flag: Flag::Nothing,
            }])
        ))
    );
}

#[test]
fn ambiguous_lu() {
    assert_eq!(
        parse_stream_unit("^ab/xy$"),
        Ok((
            "",
            StreamUnit::LexicalUnit(vec![
                SubLU {
                    ling_form: String::from("ab"),
                    tags: vec![],
                    flag: Flag::Nothing,
                },
                SubLU {
                    ling_form: String::from("xy"),
                    tags: vec![],
                    flag: Flag::Nothing,
                }
            ])
        ))
    );
}

#[test]
fn basic_lus() {
    assert_eq!(
        parse_stream("^ab$"),
        Ok((
            "",
            vec![StreamUnit::LexicalUnit(vec![SubLU {
                ling_form: String::from("ab"),
                tags: vec![],
                flag: Flag::Nothing,
            }])]
        ))
    );
    assert_eq!(
        parse_stream("^ab$ ^cd$"),
        Ok((
            "",
            vec![
                StreamUnit::LexicalUnit(vec![SubLU {
                    ling_form: String::from("ab"),
                    tags: vec![],
                    flag: Flag::Nothing,
                }]),
                StreamUnit::Space(String::from(" ")),
                StreamUnit::LexicalUnit(vec![SubLU {
                    ling_form: String::from("cd"),
                    tags: vec![],
                    flag: Flag::Nothing,
                }])
            ]
        ))
    );
}

#[test]
fn parse_basic_tag() {
    assert_eq!(parse_tag("<n>"), Ok(("", "n")));
}

#[test]
fn parse_basic_stream_with_tags() {
    assert_eq!(
        parse_stream("^ab/xy<n>$ ^cd$"),
        Ok((
            "",
            vec![
                StreamUnit::LexicalUnit(vec![
                    SubLU {
                        ling_form: String::from("ab"),
                        tags: vec![],
                        flag: Flag::Nothing,
                    },
                    SubLU {
                        ling_form: String::from("xy"),
                        tags: vec![String::from("n")],
                        flag: Flag::Nothing,
                    }
                ]),
                StreamUnit::Space(String::from(" ")),
                StreamUnit::LexicalUnit(vec![SubLU {
                    ling_form: String::from("cd"),
                    tags: vec![],
                    flag: Flag::Nothing,
                }])
            ]
        ))
    );
}

#[test]
fn parse_basic_stream_with_tags_sans_space() {
    assert_eq!(
        parse_stream("^ab/xy<n>$^cd$"),
        Ok((
            "",
            vec![
                StreamUnit::LexicalUnit(vec![
                    SubLU {
                        ling_form: String::from("ab"),
                        tags: vec![],
                        flag: Flag::Nothing,
                    },
                    SubLU {
                        ling_form: String::from("xy"),
                        tags: vec![String::from("n")],
                        flag: Flag::Nothing,
                    }
                ]),
                StreamUnit::LexicalUnit(vec![SubLU {
                    ling_form: String::from("cd"),
                    tags: vec![],
                    flag: Flag::Nothing,
                }])
            ]
        ))
    );
}

#[test]
fn parse_basic_stream_with_tags_sans_space_with_format() {
    assert_eq!(
        parse_stream("[<j>]^ab/xy<n>$[</j>]^cd$"),
        Ok((
            "",
            vec![
                StreamUnit::Format(String::from("<j>")),
                StreamUnit::LexicalUnit(vec![
                    SubLU {
                        ling_form: String::from("ab"),
                        tags: vec![],
                        flag: Flag::Nothing,
                    },
                    SubLU {
                        ling_form: String::from("xy"),
                        tags: vec![String::from("n")],
                        flag: Flag::Nothing,
                    }
                ]),
                StreamUnit::Format(String::from("</j>")),
                StreamUnit::LexicalUnit(vec![SubLU {
                    ling_form: String::from("cd"),
                    tags: vec![],
                    flag: Flag::Nothing,
                }])
            ]
        ))
    );
}

#[test]
fn parse_joined_lu_basic() {
    assert_eq!(
        parse_stream_unit("^ab/xy<n>+tx<a>$"),
        Ok((
            "",
            StreamUnit::JoinedLexicalUnit(vec![
                vec![SubLU {
                    ling_form: String::from("ab"),
                    tags: vec![],
                    flag: Flag::Nothing,
                }],
                vec![
                    SubLU {
                        ling_form: String::from("xy"),
                        tags: vec![String::from("n")],
                        flag: Flag::Nothing,
                    },
                    SubLU {
                        ling_form: String::from("tx"),
                        tags: vec![String::from("a")],
                        flag: Flag::Nothing,
                    }
                ],
            ]),
        ))
    );
}

#[test]
fn parse_chunk_with_format() {
    assert_eq!(
        parse_stream_unit("N1<SN><a>{^i$ [<o>]^j$[</o>]^k$}"),
        Ok((
            "",
            StreamUnit::Chunk(
                SubLU {
                    ling_form: String::from("N1"),
                    tags: vec![String::from("SN"), String::from("a")],
                    flag: Flag::Nothing,
                },
                vec![
                    StreamUnit::LexicalUnit(vec![SubLU {
                        ling_form: String::from("i"),
                        tags: vec![],
                        flag: Flag::Nothing,
                    }]),
                    StreamUnit::Space(String::from(" ")),
                    StreamUnit::Format(String::from("<o>")),
                    StreamUnit::LexicalUnit(vec![SubLU {
                        ling_form: String::from("j"),
                        tags: vec![],
                        flag: Flag::Nothing,
                    }]),
                    StreamUnit::Format(String::from("</o>")),
                    StreamUnit::LexicalUnit(vec![SubLU {
                        ling_form: String::from("k"),
                        tags: vec![],
                        flag: Flag::Nothing,
                    }]),
                ],
            ),
        ))
    );
}

#[test]
fn parse_escape_bracket() {
    let raw = "^\\]<vblex><pres>$";
    let (i, _) = parse_stream_unit(raw).unwrap();
    assert_eq!(i.len(), 0);
}

#[test]
fn parse_at_lu() {
    let raw = "^\\@<det><ind><sg>$";
    let (i, _) = parse_stream_unit(raw).unwrap();
    assert_eq!(i.len(), 0);
}

#[test]
fn parse_special_lemma() {
    let raw = "^*t<det><ind><sg>$";
    let (i, su) = parse_stream_unit(&raw).unwrap();
    assert_eq!(i.len(), 0);
    assert_eq!(
        su,
        StreamUnit::LexicalUnit(vec![SubLU {
            ling_form: String::from("t"),
            tags: vec![String::from("det"), String::from("ind"), String::from("sg")],
            flag: Flag::Unanalyzed,
        }])
    )
}

#[test]
fn parse_special_lemma_only() {
    let raw = "^*<det><ind><sg>$";
    let (i, su) = parse_stream_unit(&raw).unwrap();
    assert_eq!(i.len(), 0);
    assert_eq!(
        su,
        StreamUnit::LexicalUnit(vec![SubLU {
            ling_form: String::from(""),
            tags: vec![String::from("det"), String::from("ind"), String::from("sg")],
            flag: Flag::Unanalyzed,
        }])
    )
}
