use vstd::prelude::*;

verus! {

/// Status marker carried by a sub-unit, written as one leading character.
#[derive(Debug, Clone, Copy, PartialEq, Eq, Structural)]
pub enum Flag {
    Nothing,
    Unanalyzed,
    Untranslated,
    UnableToGenerateOrStartOfInvariablePart,
}

/// One analysis (or one multiword component): lemma, flag and tags.
#[derive(Debug, PartialEq)]
pub struct SubLU {
    pub ling_form: String,
    pub flag: Flag,
    pub tags: Vec<String>,
}

/// One element of a parsed stream.
#[derive(Debug, PartialEq)]
pub enum StreamUnit {
    LexicalUnit(Vec<SubLU>),
    Space(String),
    Format(String),
    JoinedLexicalUnit(Vec<Vec<SubLU>>),
    Chunk(SubLU, Vec<StreamUnit>),
}

/// Mathematical model of a `SubLU`.
pub struct SubLUModel {
    pub ling_form: Seq<char>,
    pub flag: Flag,
    pub tags: Seq<Seq<char>>,
}

/// Mathematical model of a `StreamUnit`.
pub enum UnitModel {
    LexicalUnit(Seq<SubLUModel>),
    Space(Seq<char>),
    Format(Seq<char>),
    JoinedLexicalUnit(Seq<Seq<SubLUModel>>),
    Chunk(SubLUModel, Seq<UnitModel>),
}

impl DeepView for SubLU {
    type V = SubLUModel;

    open spec fn deep_view(&self) -> SubLUModel {
        SubLUModel { ling_form: self.ling_form@, flag: self.flag, tags: self.tags.deep_view() }
    }
}

pub open spec fn unit_model(u: StreamUnit) -> UnitModel
    decreases u,
    via unit_model_decreases
{
    match u {
        StreamUnit::LexicalUnit(a) => UnitModel::LexicalUnit(a.deep_view()),
        StreamUnit::Space(t) => UnitModel::Space(t@),
        StreamUnit::Format(t) => UnitModel::Format(t@),
        StreamUnit::JoinedLexicalUnit(a) => UnitModel::JoinedLexicalUnit(a.deep_view()),
        StreamUnit::Chunk(h, cs) => UnitModel::Chunk(
            h.deep_view(),
            Seq::new(
                cs@.len(),
                |i: int|
                    if 0 <= i < cs@.len() {
                        unit_model(cs@[i])
                    } else {
                        UnitModel::Space(Seq::empty())
                    },
            ),
        ),
    }
}

#[via_fn]
proof fn unit_model_decreases(u: StreamUnit) {
    broadcast use vstd::std_specs::vec::axiom_vec_decreases_to_view;
    broadcast use vstd::seq::axiom_seq_index_decreases;

    if let StreamUnit::Chunk(h, cs) = u {
        assert forall|i: int| 0 <= i < cs@.len() implies decreases_to!(u => cs@[i]) by {
            assert(decreases_to!(u => cs));
            assert(decreases_to!(cs => cs@));
            assert(decreases_to!(cs@ => cs@[i]));
        }
    }
}

impl DeepView for StreamUnit {
    type V = UnitModel;

    open spec fn deep_view(&self) -> UnitModel {
        unit_model(*self)
    }
}

/// The kinds of failure that parsing reports.
#[derive(Debug, Clone, Copy, PartialEq, Eq, Structural)]
pub enum ErrorKind {
    /// An opening delimiter was consumed and its closer never came.
    UnterminatedUnit,
    /// A backslash not followed by a reserved character.
    InvalidEscape,
    /// No unit shape starts at this position.
    NoMatch,
}

/// A parse failure and the character offset at which it happened.
#[derive(Debug, Clone, Copy, PartialEq, Eq, Structural)]
pub struct ParseError {
    pub kind: ErrorKind,
    pub offset: usize,
}

} // verus!
