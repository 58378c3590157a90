//! Which requests the quantized build-and-search routine takes.

use vstd::prelude::*;

verus! {

/// Where the index of a request comes from.
#[derive(Clone, Copy, Debug, PartialEq, Eq, Structural)]
pub enum IndexSource {
    /// It is loaded.
    Load,
    /// It is built, possibly by inserting several vectors at a time.
    Build { multi_insert: bool },
}

/// What decides whether a request is taken.
#[derive(Clone, Copy, Debug, PartialEq, Eq, Structural)]
pub struct IndexTQOperation {
    pub source: IndexSource,
    /// Whether the data has the type that the routine is made for.
    pub data_type_matches: bool,
    /// Whether the full-precision routine takes the request.
    pub full_precision_matches: bool,
}

/// A line in the description of the routine or of a request.
#[derive(Clone, Copy, Debug, PartialEq, Eq, Structural)]
pub enum Remark {
    /// What the routine does.
    BuildAndSearch,
    /// Which data it requires.
    RequiredData,
    /// The data of the request has another type.
    OtherDataType,
    /// Several vectors at a time cannot be inserted.
    NoMultiInsert,
}

/// The description of the routine or, given a request, of what speaks against it.
pub open spec fn remarks(from: Option<IndexTQOperation>) -> Seq<Remark> {
    match from {
        None => seq![Remark::BuildAndSearch, Remark::RequiredData],
        Some(op) => (if op.data_type_matches {
            Seq::<Remark>::empty()
        } else {
            seq![Remark::OtherDataType]
        }) + (if op.source == (IndexSource::Build { multi_insert: true }) {
            seq![Remark::NoMultiInsert]
        } else {
            Seq::<Remark>::empty()
        }),
    }
}

/// How many things speak against a request: inserting several vectors at a time, and a request
/// that the full-precision routine does not take.
pub open spec fn objections(op: IndexTQOperation) -> nat {
    (if op.source == (IndexSource::Build { multi_insert: true }) {
        1nat
    } else {
        0nat
    }) + (if op.full_precision_matches {
        0nat
    } else {
        1nat
    })
}

/// A request that is taken.
#[derive(Debug)]
pub struct TurboQuantized<'a> {
    pub input: &'a IndexTQOperation,
}

impl<'a> TurboQuantized<'a> {
    /// Takes a request.
    pub fn new(input: &'a IndexTQOperation) -> (r: Self)
        ensures
            *r.input == *input,
    {
        TurboQuantized { input }
    }

    /// Takes a request that matched.
    pub fn convert(from: &'a IndexTQOperation) -> (r: Self)
        ensures
            *r.input == *from,
    {
        TurboQuantized::new(from)
    }

    /// The score of a request: zero for a match, otherwise the number of things against it.
    pub fn try_match(from: &IndexTQOperation) -> (r: Result<u32, u32>)
        ensures
            r == if objections(*from) == 0 {
                Ok::<u32, u32>(0)
            } else {
                Err(objections(*from) as u32)
            },
    {
        let mut score: u32 = 0;
        match from.source {
            IndexSource::Load => {},
            IndexSource::Build { multi_insert } => {
                if multi_insert {
                    score = 1;
                }
            },
        }
        if !from.full_precision_matches {
            score += 1;
        }
        if score == 0 {
            Ok(0)
        } else {
            Err(score)
        }
    }

    /// Describes the routine or, given a request, what speaks against it.
    pub fn description(from: Option<&IndexTQOperation>) -> (r: Vec<Remark>)
        ensures
            r@ == remarks(
                match from {
                    Some(op) => Some(*op),
                    None => None,
                },
            ),
    {
        let mut r: Vec<Remark> = Vec::new();
        match from {
            None => {
                r.push(Remark::BuildAndSearch);
                r.push(Remark::RequiredData);
                assert(r@ =~= remarks(None));
            },
            Some(op) => {
                if !op.data_type_matches {
                    r.push(Remark::OtherDataType);
                }
                match op.source {
                    IndexSource::Load => {},
                    IndexSource::Build { multi_insert } => {
                        if multi_insert {
                            r.push(Remark::NoMultiInsert);
                        }
                    },
                }
                assert(r@ =~= remarks(Some(*op)));
            },
        }
        r
    }
}

} // verus!
