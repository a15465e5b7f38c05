//! The rules by which a trace implementation is derived for an aggregate:
//! which attributes are understood, which fields are traced, and which
//! mistake is reported.
//!
//! An attribute `dumpster(...)` holds a list of entries. On the aggregate
//! itself the entries `crate = path` and `trace(ignore)` are understood, on
//! a field the entry `trace(ignore)`. Reading the tokens is left to the
//! caller: it names each entry as it comes to it, is told here what to read
//! next, and reports what it found.

use vstd::prelude::*;

verus! {

/// Where an attribute stands.
#[derive(Clone, Copy, Debug, PartialEq, Eq, Structural)]
pub enum Level {
    /// On the aggregate for which the implementation is derived.
    Container,
    /// On one of its fields.
    Field,
}

/// A mistake in an attribute.
#[derive(Clone, Copy, Debug, PartialEq, Eq, Structural)]
pub enum DeriveError {
    /// An entry that is neither `crate` nor `trace` on the aggregate, or not
    /// `trace` on a field.
    UnsupportedAttribute,
    /// Something other than `ignore` inside `trace(...)` on the aggregate.
    UnsupportedTraceAttribute,
    /// Something other than `ignore` inside `trace(...)` on a field.
    UnsupportedTraceArgument,
    /// The attribute could not be read at all; whoever reads the tokens
    /// says what is wrong with them.
    Malformed,
}

/// What to read after the name of an entry.
#[derive(Clone, Copy, Debug, PartialEq, Eq, Structural)]
pub enum Action {
    /// The entry is `crate`: read `= path`, the path under which the
    /// collector's crate is known.
    ReadCratePath,
    /// The entry is `trace`: read the list in its parentheses.
    ReadTraceArguments,
    /// The entry is not understood: report the mistake.
    Reject(DeriveError),
}

/// Which bounds the derived implementation puts on the aggregate's types.
#[derive(Clone, Copy, Debug, PartialEq, Eq, Structural)]
pub enum Bounds {
    /// No bounds: nothing is traced.
    Nothing,
    /// The type of each traced field must itself be traceable. The type of
    /// a field that is not traced need not be.
    Fields,
}

/// What the attributes of the aggregate, or of one field, have asked for so far.
#[derive(Clone, Copy, Debug, PartialEq, Eq, Structural)]
pub struct Notes {
    /// Whether `trace(ignore)` was found.
    pub ignored: bool,
    /// The first mistake found, if any.
    pub failed: Option<DeriveError>,
}

/// What is derived: the bounds, and for each field whether it is traced.
pub struct Plan {
    pub bounds: Bounds,
    pub traced: Vec<bool>,
}

/// What to read after an entry named `name`.
pub open spec fn spec_on_meta(level: Level, name: Seq<char>) -> Action {
    if level == Level::Container && name == "crate"@ {
        Action::ReadCratePath
    } else if name == "trace"@ {
        Action::ReadTraceArguments
    } else {
        Action::Reject(DeriveError::UnsupportedAttribute)
    }
}

/// Whether `name` may stand inside `trace(...)`, and the mistake if not.
pub open spec fn spec_on_trace_argument(level: Level, name: Seq<char>) -> Result<(), DeriveError> {
    if name == "ignore"@ {
        Ok(())
    } else if level == Level::Container {
        Err(DeriveError::UnsupportedTraceAttribute)
    } else {
        Err(DeriveError::UnsupportedTraceArgument)
    }
}

/// The words in which a mistake is reported.
pub open spec fn spec_message(error: DeriveError) -> Seq<char> {
    match error {
        DeriveError::UnsupportedAttribute => "unsupported attribute"@,
        DeriveError::UnsupportedTraceAttribute => "unsupported trace attribute"@,
        DeriveError::UnsupportedTraceArgument => "unsupported trace attribute argument"@,
        DeriveError::Malformed => "malformed attribute"@,
    }
}

/// The first mistake among the first `n` fields, if any has one.
pub open spec fn first_failure(fields: Seq<Notes>, n: int) -> Option<DeriveError>
    decreases n,
{
    if n <= 0 {
        None
    } else {
        match first_failure(fields, n - 1) {
            Some(error) => Some(error),
            None => fields[n - 1].failed,
        }
    }
}

/// What is derived from the notes on the aggregate and on its fields.
///
/// A mistake on the aggregate is reported before its fields are looked at.
/// An ignored aggregate traces nothing, asks for no bounds, and its fields
/// are not looked at. Else the first mistake on a field is reported, and
/// without one every field that is not ignored is traced.
pub open spec fn spec_plan(container: Notes, fields: Seq<Notes>) -> Result<(Bounds, Seq<bool>), DeriveError> {
    if container.failed is Some {
        Err(container.failed.unwrap())
    } else if container.ignored {
        Ok((Bounds::Nothing, Seq::new(fields.len(), |i: int| false)))
    } else if first_failure(fields, fields.len() as int) is Some {
        Err(first_failure(fields, fields.len() as int).unwrap())
    } else {
        Ok((Bounds::Fields, Seq::new(fields.len(), |i: int| !fields[i].ignored)))
    }
}

/// Whether two strings hold the same characters.
fn same(a: &str, b: &str) -> (eq: bool)
    ensures
        eq == (a@ == b@),
{
    a.to_owned() == b.to_owned()
}

/// What to read after an entry named `name`.
pub fn on_meta(level: Level, name: &str) -> (action: Action)
    ensures
        action == spec_on_meta(level, name@),
{
    if level == Level::Container && same(name, "crate") {
        Action::ReadCratePath
    } else if same(name, "trace") {
        Action::ReadTraceArguments
    } else {
        Action::Reject(DeriveError::UnsupportedAttribute)
    }
}

/// Whether `name` may stand inside `trace(...)`, and the mistake if not.
pub fn on_trace_argument(level: Level, name: &str) -> (r: Result<(), DeriveError>)
    ensures
        r == spec_on_trace_argument(level, name@),
{
    if same(name, "ignore") {
        Ok(())
    } else if level == Level::Container {
        Err(DeriveError::UnsupportedTraceAttribute)
    } else {
        Err(DeriveError::UnsupportedTraceArgument)
    }
}

impl DeriveError {
    /// The words in which the mistake is reported.
    pub fn message(&self) -> (text: &'static str)
        ensures
            text@ == spec_message(*self),
    {
        match self {
            DeriveError::UnsupportedAttribute => "unsupported attribute",
            DeriveError::UnsupportedTraceAttribute => "unsupported trace attribute",
            DeriveError::UnsupportedTraceArgument => "unsupported trace attribute argument",
            DeriveError::Malformed => "malformed attribute",
        }
    }
}

impl Notes {
    /// Nothing asked for yet.
    pub fn new() -> (notes: Notes)
        ensures
            notes == (Notes { ignored: false, failed: None }),
    {
        Notes { ignored: false, failed: None }
    }

    /// Takes note of `name` inside `trace(...)`: `ignore` is noted, anything
    /// else is a mistake, which is returned and not noted.
    pub fn trace_argument(&mut self, level: Level, name: &str) -> (r: Result<(), DeriveError>)
        ensures
            r == spec_on_trace_argument(level, name@),
            *final(self) == (Notes { ignored: old(self).ignored || r is Ok, ..*old(self) }),
    {
        let r = on_trace_argument(level, name);
        if r.is_ok() {
            self.ignored = true;
        }
        r
    }

    /// Takes note of a mistake. The first one noted stays.
    pub fn fail(&mut self, error: DeriveError)
        ensures
            *final(self) == (Notes {
                failed: match old(self).failed {
                    Some(first) => Some(first),
                    None => Some(error),
                },
                ..*old(self)
            }),
    {
        if self.failed.is_none() {
            self.failed = Some(error);
        }
    }

    /// Whether a field with these notes is traced.
    pub fn traced(&self) -> (traced: bool)
        ensures
            traced == !self.ignored,
    {
        !self.ignored
    }
}

/// What is derived from the notes on the aggregate and on its fields.
pub fn plan(container: &Notes, fields: &Vec<Notes>) -> (r: Result<Plan, DeriveError>)
    ensures
        match r {
            Ok(plan) => spec_plan(*container, fields@) == Ok::<(Bounds, Seq<bool>), DeriveError>(
                (plan.bounds, plan.traced@),
            ),
            Err(error) => spec_plan(*container, fields@) == Err::<(Bounds, Seq<bool>), DeriveError>(
                error,
            ),
        },
{
    if let Some(error) = container.failed {
        return Err(error);
    }
    let mut traced: Vec<bool> = Vec::new();
    let mut i: usize = 0;
    if container.ignored {
        while i < fields.len()
            invariant
                i <= fields.len(),
                traced@ == Seq::new(i as nat, |j: int| false),
            decreases fields.len() - i,
        {
            traced.push(false);
            i += 1;
            proof {
                assert(traced@ =~= Seq::new(i as nat, |j: int| false));
            }
        }
        return Ok(Plan { bounds: Bounds::Nothing, traced });
    }
    while i < fields.len()
        invariant
            i <= fields.len(),
            container.failed is None,
            !container.ignored,
            first_failure(fields@, i as int) is None,
            traced@ == Seq::new(i as nat, |j: int| !fields@[j].ignored),
        decreases fields.len() - i,
    {
        if let Some(error) = fields[i].failed {
            proof {
                assert(first_failure(fields@, i as int + 1) == Some(error));
                lemma_first_failure_stays(fields@, i as int + 1, fields@.len() as int);
            }
            return Err(error);
        }
        traced.push(!fields[i].ignored);
        i += 1;
        proof {
            assert(traced@ =~= Seq::new(i as nat, |j: int| !fields@[j].ignored));
        }
    }
    Ok(Plan { bounds: Bounds::Fields, traced })
}

/// A mistake found among the first fields is the first mistake of all.
proof fn lemma_first_failure_stays(fields: Seq<Notes>, n: int, m: int)
    requires
        0 <= n <= m,
        first_failure(fields, n) is Some,
    ensures
        first_failure(fields, m) == first_failure(fields, n),
    decreases m - n,
{
    if n < m {
        lemma_first_failure_stays(fields, n, m - 1);
    }
}

} // verus!
