//! What the library has from the `globset` crate: compiled globs, sets of them, and their
//! errors. The contracts of the functions that call the crate are believed, not proved:
//! each says what the crate's function does, over names for what the crate computes.

use globset::{Glob, GlobBuilder, GlobSet, GlobSetBuilder};
use vstd::prelude::*;
use vstd::string::StringExecFns;

verus! {

/// `globset::Glob`, a pattern that was parsed. Nothing is known of what a value holds but
/// what `glob_source` names.
#[verifier::external_type_specification]
#[verifier::external_body]
pub struct ExGlob(Glob);

/// `globset::GlobSetBuilder`, the list of globs that a set is to be made of. Nothing is
/// known of what a value holds but what `builder_globs` names.
#[verifier::external_type_specification]
#[verifier::external_body]
pub struct ExGlobSetBuilder(GlobSetBuilder);

/// `globset::GlobSet`, globs compiled to be matched together. Nothing is known of what a
/// value holds but what `set_globs` names.
#[verifier::external_type_specification]
#[verifier::external_body]
pub struct ExGlobSet(GlobSet);

/// `globset::Error`, the error of the glob compiler. Nothing is known of what a value holds
/// but what `failure_glob` and `failure_reason` name.
#[verifier::external_type_specification]
#[verifier::external_body]
pub struct ExGlobFailure(globset::Error);

/// A glob as the contracts see it: the text of its pattern, and whether it ignores case.
pub type GlobSource = (Seq<char>, bool);

/// What is wrong with a glob: the pattern that was blamed, if any, and the reason in words.
pub type GlobFault = (Option<Seq<char>>, Seq<char>);

/// What the glob compiler finds wrong with `pattern`, or `None` where the pattern compiles.
pub uninterp spec fn glob_fault(pattern: Seq<char>, case_insensitive: bool) -> Option<GlobFault>;

/// The pattern and the case option that a compiled glob was made from.
pub uninterp spec fn glob_source(glob: Glob) -> GlobSource;

/// The globs that were added to a builder, in the order in which they were added.
pub uninterp spec fn builder_globs(builder: GlobSetBuilder) -> Seq<GlobSource>;

/// The globs of a set, in the order in which they were added to its builder.
pub uninterp spec fn set_globs(set: GlobSet) -> Seq<GlobSource>;

/// What goes wrong when the globs `globs` are compiled into one set, or `None` where the set
/// can be built.
pub uninterp spec fn set_fault(globs: Seq<GlobSource>) -> Option<GlobFault>;

/// The places, in a set made of `globs`, of the globs that match `path`.
pub uninterp spec fn set_matches(globs: Seq<GlobSource>, path: Seq<char>) -> Seq<usize>;

/// The pattern that an error of the glob compiler blames, if it names one.
pub uninterp spec fn failure_glob(failure: globset::Error) -> Option<Seq<char>>;

/// The reason that an error of the glob compiler gives, in words.
pub uninterp spec fn failure_reason(failure: globset::Error) -> Seq<char>;

/// `globset::GlobBuilder::build`, for `pattern` with the case option set as given and every
/// other option left at its default. It succeeds or fails by the pattern and the option alone,
/// and a glob that it returns was made from them.
#[verifier::external_body]
pub(crate) fn compile_glob(pattern: &str, case_insensitive: bool) -> (r: Result<Glob, globset::Error>)
    ensures
        r matches Ok(glob) ==> glob_fault(pattern@, case_insensitive) is None && glob_source(glob) == (
            pattern@,
            case_insensitive,
        ),
        r matches Err(failure) ==> glob_fault(pattern@, case_insensitive) == Some(
            (failure_glob(failure), failure_reason(failure)),
        ),
{
    GlobBuilder::new(pattern).case_insensitive(case_insensitive).build()
}

/// `globset::GlobSetBuilder::new`: a builder to which no glob was added.
#[verifier::external_body]
pub(crate) fn new_set_builder() -> (builder: GlobSetBuilder)
    ensures
        builder_globs(builder) == Seq::<GlobSource>::empty(),
{
    GlobSetBuilder::new()
}

/// `globset::GlobSetBuilder::add`: the glob goes behind those that the builder holds.
#[verifier::external_body]
pub(crate) fn add_glob(builder: &mut GlobSetBuilder, glob: Glob)
    ensures
        builder_globs(*final(builder)) == builder_globs(*old(builder)).push(glob_source(glob)),
{
    builder.add(glob);
}

/// `globset::GlobSetBuilder::build`: a set of the globs that the builder holds, in their
/// order. Whether it can be built depends on those globs alone.
#[verifier::external_body]
pub(crate) fn build_set(builder: &GlobSetBuilder) -> (r: Result<GlobSet, globset::Error>)
    ensures
        r matches Ok(set) ==> set_fault(builder_globs(*builder)) is None && set_globs(set)
            == builder_globs(*builder),
        r matches Err(failure) ==> set_fault(builder_globs(*builder)) == Some(
            (failure_glob(failure), failure_reason(failure)),
        ),
{
    builder.build()
}

/// `globset::GlobSet::empty`: the set of no globs.
#[verifier::external_body]
pub(crate) fn empty_set() -> (set: GlobSet)
    ensures
        set_globs(set) == Seq::<GlobSource>::empty(),
{
    GlobSet::empty()
}

/// `Clone` of `globset::GlobSet`: a set of the same globs.
#[verifier::external_body]
pub(crate) fn clone_set(set: &GlobSet) -> (copy: GlobSet)
    ensures
        set_globs(copy) == set_globs(*set),
{
    set.clone()
}

/// `globset::GlobSet::matches_into`: `into` is emptied and then filled with the place of every
/// glob of the set that matches `path`. Which places these are depends on the globs of the
/// set and on the path alone.
#[verifier::external_body]
pub(crate) fn match_into(set: &GlobSet, path: &str, into: &mut Vec<usize>)
    ensures
        final(into)@ == set_matches(set_globs(*set), path@),
{
    set.matches_into(path, into);
}

/// `globset::Error::glob`: the pattern that the error blames, if it names one.
#[verifier::external_body]
pub(crate) fn blamed_glob(failure: &globset::Error) -> (glob: Option<String>)
    ensures
        glob is Some <==> failure_glob(*failure) is Some,
        glob matches Some(g) ==> failure_glob(*failure) == Some(g@),
{
    failure.glob().map(|g| g.to_owned())
}

/// `globset::Error::kind`, put into words as the kind's `Display` does.
#[verifier::external_body]
pub(crate) fn stated_reason(failure: &globset::Error) -> (reason: String)
    ensures
        reason@ == failure_reason(*failure),
{
    failure.kind().to_string()
}

/// A fault in words: the reason, behind the pattern where the fault names one.
pub open spec fn fault_message(fault: GlobFault) -> Seq<char> {
    match fault.0 {
        None => fault.1,
        Some(glob) => "error parsing glob '"@ + glob + "': "@ + fault.1,
    }
}

/// An error of the glob compiler: a pattern that does not parse, or a set of patterns that
/// cannot be compiled together.
#[derive(Debug)]
pub struct GlobError {
    glob: Option<String>,
    reason: String,
}

impl View for GlobError {
    type V = GlobFault;

    closed spec fn view(&self) -> GlobFault {
        (
            match self.glob {
                Some(g) => Some(g@),
                None => None,
            },
            self.reason@,
        )
    }
}

impl GlobError {
    /// The library's error for an error of the glob compiler.
    pub(crate) fn from_failure(failure: &globset::Error) -> (error: GlobError)
        ensures
            error@ == (failure_glob(*failure), failure_reason(*failure)),
    {
        GlobError { glob: blamed_glob(failure), reason: stated_reason(failure) }
    }

    /// The pattern that caused this error, if the error names one.
    pub fn glob(&self) -> (glob: Option<&str>)
        ensures
            glob is Some <==> self@.0 is Some,
            glob matches Some(g) ==> self@.0 == Some(g@),
    {
        match &self.glob {
            Some(g) => Some(g.as_str()),
            None => None,
        }
    }

    /// The reason for this error, in words.
    pub fn reason(&self) -> (reason: &str)
        ensures
            reason@ == self@.1,
    {
        self.reason.as_str()
    }

    /// The whole error in words: the reason, behind the pattern where the error names one.
    pub fn message(&self) -> (message: String)
        ensures
            message@ == fault_message(self@),
    {
        match &self.glob {
            None => self.reason.clone(),
            Some(glob) => {
                let mut message = String::new();
                message.append("error parsing glob '");
                message.append(glob.as_str());
                message.append("': ");
                message.append(self.reason.as_str());
                message
            },
        }
    }
}

} // verus!
