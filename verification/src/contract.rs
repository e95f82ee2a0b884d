//! The contract vocabulary: descriptors, errors, issues, results and streams.
use vstd::prelude::*;

verus! {

/// The identifier of a contract.
pub struct ContractId(pub String);

/// What a contract is: its identifier, version and representation.
pub struct ContractDescriptor {
    pub id: ContractId,
    pub version: String,
    pub representation: String,
}

/// A contract that cannot be built or loaded.
pub struct ContractError {
    pub message: String,
}

/// One departure from a contract: the keyword or check that refused (`code`),
/// what was wrong, and where.
pub struct ValidationIssue {
    pub code: String,
    pub message: String,
    pub path: Option<String>,
}

/// The content of a `ValidationIssue`.
pub struct Finding {
    pub code: Seq<char>,
    pub message: Seq<char>,
    pub path: Option<Seq<char>>,
}

impl View for ValidationIssue {
    type V = Finding;

    open spec fn view(&self) -> Finding {
        Finding {
            code: self.code@,
            message: self.message@,
            path: match self.path {
                Some(p) => Some(p@),
                None => None,
            },
        }
    }
}

/// The contents of a list of issues.
pub open spec fn findings(issues: Seq<ValidationIssue>) -> Seq<Finding> {
    issues.map_values(|i: ValidationIssue| i@)
}

impl ValidationIssue {
    /// An issue at a location.
    pub fn at(code: &str, message: &str, path: &str) -> (r: ValidationIssue)
        ensures
            r@ == (Finding { code: code@, message: message@, path: Some(path@) }),
    {
        ValidationIssue { code: code.to_owned(), message: message.to_owned(), path: Some(path.to_owned()) }
    }
}

/// The outcome of validating a stream: valid exactly when there is no issue.
pub struct ValidationResult {
    pub valid: bool,
    pub issues: Vec<ValidationIssue>,
}

impl ValidationResult {
    /// The result that `issues` make.
    pub fn of(issues: Vec<ValidationIssue>) -> (r: ValidationResult)
        ensures
            r.issues@ == issues@,
            r.valid == (issues@.len() == 0),
    {
        let valid = issues.len() == 0;
        ValidationResult { valid, issues }
    }
}

/// A stream: its bytes, and the media type it was declared with, if any.
pub struct Stream {
    pub media_type: Option<String>,
    pub bytes: Vec<u8>,
}

impl Stream {
    /// A stream of `bytes` with an optional declared media type.
    pub fn new(bytes: Vec<u8>, media_type: Option<String>) -> (r: Stream)
        ensures
            r.bytes@ == bytes@,
            r.media_type == media_type,
    {
        Stream { media_type, bytes }
    }

    /// The declared media type.
    pub fn media_type(&self) -> (r: Option<&str>)
        ensures
            match r {
                Some(m) => self.media_type matches Some(t) && m@ == t@,
                None => self.media_type is None,
            },
    {
        match &self.media_type {
            Some(t) => Some(t.as_str()),
            None => None,
        }
    }

    /// The bytes.
    pub fn bytes(&self) -> (r: &[u8])
        ensures
            r@ == self.bytes@,
    {
        self.bytes.as_slice()
    }
}

/// Appends one issue.
pub fn push_issue(out: &mut Vec<ValidationIssue>, issue: ValidationIssue)
    ensures
        findings(final(out)@) == findings(old(out)@).push(issue@),
{
    out.push(issue);
    assert(findings(out@) =~= findings(old(out)@).push(issue@));
}

/// Appends a list of issues.
pub fn push_issues(out: &mut Vec<ValidationIssue>, more: Vec<ValidationIssue>)
    ensures
        findings(final(out)@) == findings(old(out)@) + findings(more@),
{
    let mut more = more;
    let ghost m = more@;
    out.append(&mut more);
    assert(findings(out@) =~= findings(old(out)@) + findings(m));
}

} // verus!
