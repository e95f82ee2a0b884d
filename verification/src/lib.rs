//! The JSON content contract, a technology of `xmip-core-contract`.
//!
//! Two claims: **well-formedness is a given** and is always checked, and
//! **conformance is a given once a contract is named**: a Receive or Send
//! Location that refers to this contract with a schema bound has every Stream
//! validated against that schema. An unbound contract is the first claim alone.
//!
//! The schema dialect is the JSON Schema core and validation vocabulary that
//! [`schema`] documents; anything outside it is ignored, as the specification
//! says an unknown keyword must be.
//!
//! A Stream's bytes are read as JSON by the caller, who hands the outcome to
//! [`JsonSchema::validate`]: the document, or where and why reading it failed.
//! A bound schema whose `$ref`s form a cycle may never finish; the caller that
//! cannot show it finishes uses [`JsonSchema::validate_within`], which decides
//! whether it finishes within a depth and says so.
use vstd::prelude::*;
use vstd::string::*;

pub mod contract;
pub mod format;
pub mod json;
pub mod keywords;
pub mod laws;
pub mod locations;
pub mod pointer;
pub mod schema;
pub mod text;

use crate::contract::{
    findings, ContractDescriptor, ContractError, ContractId, Finding, Stream, ValidationIssue, ValidationResult,
};
use crate::json::{get, lookup, Json};
use crate::schema::{check, check_findings, check_within, halts, terminates};
use crate::text::{all_space, chars_of, decimal, is_space, lemma_trim_padded, push_decimal, trim, trim_bounds};

verus! {

/// The JSON contract, bare or bound to a schema.
pub struct JsonSchema {
    descriptor: ContractDescriptor,
    schema: Option<Json>,
}

/// Why a Stream's bytes are not JSON: the reader's message, and the line and
/// column where it stopped.
pub struct SyntaxError {
    pub message: String,
    pub line: usize,
    pub column: usize,
}

/// The name a bound contract takes from its schema: `$id` when present, else
/// `title`, used when it is a string; `bound` otherwise.
pub open spec fn schema_name(schema: Json) -> Seq<char> {
    match schema {
        Json::Object(kw) => {
            let named = match lookup(kw@, "$id"@) {
                Some(v) => Some(v),
                None => lookup(kw@, "title"@),
            };
            match named {
                Some(Json::Text(s)) => s@,
                _ => "bound"@,
            }
        },
        _ => "bound"@,
    }
}

/// A JSON Schema is an object or a boolean.
pub open spec fn is_schema(schema: Json) -> bool {
    schema is Object || schema is Bool
}

/// The descriptor of the contract named `id`.
pub open spec fn describes(d: ContractDescriptor, id: Seq<char>) -> bool {
    &&& d.id.0@ == id
    &&& d.version@ == "1"@
    &&& d.representation@ == "application/json"@
}

impl JsonSchema {
    /// The schema bound, if any.
    pub closed spec fn bound_schema(&self) -> Option<Json> {
        self.schema
    }

    /// The descriptor.
    pub closed spec fn described(&self) -> ContractDescriptor {
        self.descriptor
    }

    /// Well-formedness only.
    pub fn new() -> (r: Self)
        ensures
            r.bound_schema() is None,
            describes(r.described(), "json-schema"@),
    {
        Self { descriptor: descriptor("json-schema"), schema: None }
    }

    /// What binding `schema` gives: a contract bound to it and named after it,
    /// or, when it is not a JSON Schema, the error that says so.
    pub open spec fn binds(schema: Json, r: Result<JsonSchema, ContractError>) -> bool {
        match r {
            Ok(c) => {
                &&& is_schema(schema)
                &&& c.bound_schema() == Some(schema)
                &&& describes(c.described(), "json-schema:"@ + schema_name(schema))
            },
            Err(e) => !is_schema(schema) && e.message@ == "a JSON Schema is an object or a boolean"@,
        }
    }

    /// Well-formedness and conformance to `schema`.
    ///
    /// # Errors
    /// The schema must itself be a JSON Schema: an object or a boolean.
    pub fn with_schema(schema: Json) -> (r: Result<Self, ContractError>)
        ensures
            Self::binds(schema, r),
    {
        let valid = match &schema {
            Json::Object(_) => true,
            Json::Bool(_) => true,
            _ => false,
        };
        if !valid {
            return Err(ContractError { message: "a JSON Schema is an object or a boolean".to_owned() });
        }
        let mut id = "json-schema:".to_owned();
        let ghost prefix = id@;
        match &schema {
            Json::Object(kw) => {
                let named = match get(kw, "$id") {
                    Some(v) => Some(v),
                    None => get(kw, "title"),
                };
                match named {
                    Some(Json::Text(s)) => id.append(s.as_str()),
                    _ => id.append("bound"),
                }
            },
            _ => id.append("bound"),
        }
        assert(id@ == prefix + schema_name(schema));
        Ok(Self { descriptor: descriptor(id.as_str()), schema: Some(schema) })
    }

    /// Whether a schema is bound.
    pub fn is_bound(&self) -> (r: bool)
        ensures
            r == self.bound_schema() is Some,
    {
        self.schema.is_some()
    }

    /// The contract's descriptor.
    pub fn descriptor(&self) -> (r: &ContractDescriptor)
        ensures
            *r == self.described(),
    {
        &self.descriptor
    }

    /// Whether a Stream is JSON: declared so by its media type, or opening with
    /// `{` or `[` after white space.
    pub fn identify(&self, stream: &Stream) -> (r: Result<bool, ContractError>)
        ensures
            r matches Ok(b) && b == identifies(stream.media_type, stream.bytes@),
    {
        let declared = match stream.media_type() {
            Some(m) => is_json_media_type(m),
            None => false,
        };
        if declared {
            return Ok(true);
        }
        let bytes = stream.bytes();
        let mut i: usize = 0;
        assert(bytes@.skip(0) =~= bytes@);
        while i < bytes.len() && is_ascii_space(bytes[i])
            invariant
                bytes@ == stream.bytes@,
                i <= bytes@.len(),
                first_significant(bytes@) == first_significant(bytes@.skip(i as int)),
            decreases bytes@.len() - i,
        {
            assert(bytes@.skip(i as int).drop_first() =~= bytes@.skip(i + 1));
            i = i + 1;
        }
        if i == bytes.len() {
            assert(bytes@.skip(i as int) =~= Seq::<u8>::empty());
            return Ok(false);
        }
        Ok(bytes[i] == 0x7B || bytes[i] == 0x5B)
    }

    /// Validates a Stream whose bytes were read as `document`: a document that
    /// is not JSON is one `malformed` issue that says where; a JSON document is
    /// held to the bound schema, and to nothing more when none is bound.
    pub fn validate(&self, document: &Result<Json, SyntaxError>) -> (r: ValidationResult)
        requires
            match (document, self.bound_schema()) {
                (Ok(inst), Some(s)) => terminates(s, s, *inst, Seq::empty()),
                _ => true,
            },
        ensures
            r.valid == (r.issues@.len() == 0),
            findings(r.issues@) == validation_findings(*document, self.bound_schema()),
    {
        proof {
            reveal_strlit("");
            assert(""@ =~= Seq::<char>::empty());
        }
        let issues = match document {
            Err(error) => vec![malformed(error)],
            Ok(instance) => match &self.schema {
                Some(schema) => check(schema, schema, instance, ""),
                None => Vec::new(),
            },
        };
        assert(findings(issues@) =~= validation_findings(*document, self.bound_schema()));
        ValidationResult::of(issues)
    }

    /// Validates as `validate` does when the bound schema's evaluation of the
    /// document finishes within `depth` nested evaluations; `None` when it
    /// does not, which only a bound schema and a JSON document can give.
    pub fn validate_within(&self, document: &Result<Json, SyntaxError>, depth: u64) -> (r: Option<
        ValidationResult,
    >)
        ensures
            (r is None) == match (document, self.bound_schema()) {
                (Ok(inst), Some(s)) => !halts(s, s, *inst, Seq::empty(), depth as nat),
                _ => false,
            },
            r matches Some(v) ==> v.valid == (v.issues@.len() == 0) && findings(v.issues@) == validation_findings(
                *document,
                self.bound_schema(),
            ),
    {
        proof {
            reveal_strlit("");
            assert(""@ =~= Seq::<char>::empty());
        }
        if let Ok(instance) = document {
            if let Some(schema) = &self.schema {
                return match check_within(schema, schema, instance, "", depth) {
                    Some(issues) => Some(ValidationResult::of(issues)),
                    None => None,
                };
            }
        }
        Some(self.validate(document))
    }
}

impl Default for JsonSchema {
    fn default() -> (r: Self)
        ensures
            r.bound_schema() is None,
            describes(r.described(), "json-schema"@),
    {
        Self::new()
    }
}

/// What reading the schema file a Location names gave: an error reading it,
/// text that is not JSON (with the reader's message), or the schema.
pub enum SchemaFile {
    Unreadable(String),
    NotJson(String),
    Parsed(Json),
}

/// What validating `document` reports: one `malformed` issue for a document
/// that is not JSON, what the bound schema reports of a JSON document, and
/// nothing when no schema is bound.
pub open spec fn validation_findings(document: Result<Json, SyntaxError>, bound: Option<Json>) -> Seq<Finding> {
    match document {
        Err(e) => seq![malformed_finding(e)],
        Ok(inst) => match bound {
            Some(s) => check_findings(s, s, inst, Seq::empty()),
            None => Seq::empty(),
        },
    }
}

/// Loads the contract a Location names: an empty reference is the bare
/// contract, anything else is the path of a schema file.
pub struct JsonSchemaFactory;

/// A reference that names no schema file: the empty one.
pub open spec fn is_empty_reference(reference: Seq<char>) -> bool {
    reference.len() == 0
}

impl JsonSchemaFactory {
    /// The technology this factory serves.
    pub fn technology(&self) -> (r: &'static str)
        ensures
            r@ == "json-schema"@,
    {
        "json-schema"
    }

    /// Whether loading `reference` reads a schema file.
    pub fn reads_file(&self, reference: &str) -> (r: bool)
        ensures
            r == !is_empty_reference(reference@),
    {
        let cs = chars_of(reference);
        cs.len() > 0
    }

    /// The contract `reference` names, given what reading its schema file gave
    /// when it names one.
    pub fn load(&self, reference: &str, file: Option<SchemaFile>) -> (r: Result<JsonSchema, ContractError>)
        requires
            !is_empty_reference(reference@) ==> file is Some,
        ensures
            is_empty_reference(reference@) ==> (r matches Ok(c) && c.bound_schema() is None && describes(
                c.described(),
                "json-schema"@,
            )),
            !is_empty_reference(reference@) ==> match file {
                Some(SchemaFile::Unreadable(e)) => (r matches Err(x) && x.message@ == "cannot read schema "@
                    + reference@ + ": "@ + e@),
                Some(SchemaFile::NotJson(e)) => (r matches Err(x) && x.message@ == "schema "@ + reference@
                    + " is not valid JSON: "@ + e@),
                Some(SchemaFile::Parsed(s)) => JsonSchema::binds(s, r),
                None => false,
            },
    {
        if !self.reads_file(reference) {
            return Ok(JsonSchema::new());
        }
        match file {
            Some(SchemaFile::Unreadable(error)) => {
                let mut message = "cannot read schema ".to_owned();
                message.append(reference);
                message.append(": ");
                message.append(error.as_str());
                Err(ContractError { message })
            },
            Some(SchemaFile::NotJson(error)) => {
                let mut message = "schema ".to_owned();
                message.append(reference);
                message.append(" is not valid JSON: ");
                message.append(error.as_str());
                Err(ContractError { message })
            },
            Some(SchemaFile::Parsed(schema)) => JsonSchema::with_schema(schema),
            None => Err(ContractError { message: String::new() }),
        }
    }
}

/// The descriptor of the JSON contract named `id`.
fn descriptor(id: &str) -> (r: ContractDescriptor)
    ensures
        describes(r, id@),
{
    ContractDescriptor {
        id: ContractId(id.to_owned()),
        version: "1".to_owned(),
        representation: "application/json".to_owned(),
    }
}

/// The issue a document that is not JSON makes.
pub open spec fn malformed_finding(e: SyntaxError) -> Finding {
    Finding {
        code: "malformed"@,
        message: "not valid JSON: "@ + e.message@,
        path: Some("line "@ + decimal(e.line as nat) + " column "@ + decimal(e.column as nat)),
    }
}

fn malformed(error: &SyntaxError) -> (r: ValidationIssue)
    ensures
        r@ == malformed_finding(*error),
{
    let mut message = "not valid JSON: ".to_owned();
    message.append(error.message.as_str());
    let mut at = "line ".to_owned();
    push_decimal(&mut at, error.line as u64);
    at.append(" column ");
    push_decimal(&mut at, error.column as u64);
    ValidationIssue::at("malformed", message.as_str(), at.as_str())
}

/// `b` is ASCII white space (`u8::is_ascii_whitespace`).
pub open spec fn ascii_space(b: u8) -> bool {
    b == 0x20 || b == 0x09 || b == 0x0A || b == 0x0C || b == 0x0D
}

fn is_ascii_space(b: u8) -> (r: bool)
    ensures
        r == ascii_space(b),
{
    b == 0x20 || b == 0x09 || b == 0x0A || b == 0x0C || b == 0x0D
}

/// The first byte that is not ASCII white space.
pub open spec fn first_significant(bytes: Seq<u8>) -> Option<u8>
    decreases bytes.len(),
{
    if bytes.len() == 0 {
        None
    } else if ascii_space(bytes[0]) {
        first_significant(bytes.drop_first())
    } else {
        Some(bytes[0])
    }
}

/// The part of a media type before its parameters (before the first `;`).
pub open spec fn before_semicolon(m: Seq<char>) -> Seq<char>
    decreases m.len(),
{
    if m.len() == 0 || m[0] == ';' {
        seq![]
    } else {
        seq![m[0]] + before_semicolon(m.drop_first())
    }
}

/// `c` in ASCII lower case.
pub open spec fn ascii_lower(c: char) -> char {
    if 65 <= (c as u32) <= 90 {
        ((c as u32) + 32) as char
    } else {
        c
    }
}

/// Equality ignoring ASCII case (`str::eq_ignore_ascii_case`).
pub open spec fn same_ignoring_case(a: Seq<char>, b: Seq<char>) -> bool {
    a.len() == b.len() && forall|i: int| 0 <= i < a.len() ==> #[trigger] ascii_lower(a[i]) == ascii_lower(b[i])
}

/// Whether a media type is JSON: its essence, trimmed, is `application/json`
/// in any ASCII case, or ends with `+json`.
pub open spec fn json_media_type(m: Seq<char>) -> bool {
    let essence = trim(before_semicolon(m));
    same_ignoring_case(essence, "application/json"@) || (essence.len() >= 5 && essence.skip(essence.len() - 5)
        == "+json"@)
}

proof fn lemma_before_semicolon(a: Seq<char>, rest: Seq<char>)
    requires
        forall|i: int| 0 <= i < a.len() ==> a[i] != ';',
    ensures
        before_semicolon(a + seq![';'] + rest) == a,
        before_semicolon(a) == a,
    decreases a.len(),
{
    if a.len() > 0 {
        assert((a + seq![';'] + rest)[0] == a[0]);
        assert((a + seq![';'] + rest).drop_first() =~= a.drop_first() + seq![';'] + rest);
        lemma_before_semicolon(a.drop_first(), rest);
        assert(seq![a[0]] + a.drop_first() =~= a);
    } else {
        assert((a + seq![';'] + rest)[0] == ';');
    }
}

/// Parameters after the first `;`, and white space around the essence, never
/// change whether a media type is JSON.
pub proof fn law_media_type_parameters_ignored(
    before: Seq<char>,
    essence: Seq<char>,
    after: Seq<char>,
    rest: Seq<char>,
)
    requires
        all_space(before),
        all_space(after),
        forall|i: int| 0 <= i < essence.len() ==> essence[i] != ';',
    ensures
        json_media_type(before + essence + after + seq![';'] + rest) == json_media_type(essence),
        json_media_type(before + essence + after) == json_media_type(essence),
{
    let a = before + essence + after;
    assert forall|i: int| 0 <= i < a.len() implies a[i] != ';' by {
        if i < before.len() {
            assert(a[i] == before[i]);
            assert(is_space(before[i]));
        } else if i < before.len() + essence.len() {
            assert(a[i] == essence[i - before.len()]);
        } else {
            assert(a[i] == after[i - before.len() - essence.len()]);
            assert(is_space(after[i - before.len() - essence.len()]));
        }
    }
    lemma_before_semicolon(a, rest);
    lemma_before_semicolon(essence, rest);
    lemma_trim_padded(before, essence, after);
}

/// Whether a Stream is taken for JSON.
pub open spec fn identifies(media_type: Option<String>, bytes: Seq<u8>) -> bool {
    (media_type matches Some(m) && json_media_type(m@)) || first_significant(bytes) == Some(0x7Bu8)
        || first_significant(bytes) == Some(0x5Bu8)
}

/// The first `i` bytes are ASCII white space and byte `i` opens an object or
/// an array.
pub open spec fn opens_document_at(bytes: Seq<u8>, i: int) -> bool {
    &&& 0 <= i < bytes.len()
    &&& bytes[i] == 0x7Bu8 || bytes[i] == 0x5Bu8
    &&& forall|j: int|
        0 <= j < i ==> #[trigger] bytes[j] == 0x20u8 || bytes[j] == 0x09u8 || bytes[j] == 0x0Au8 || bytes[j]
            == 0x0Cu8 || bytes[j] == 0x0Du8
}

proof fn lemma_first_significant_at(bytes: Seq<u8>, i: int)
    requires
        0 <= i < bytes.len(),
        !ascii_space(bytes[i]),
        forall|j: int| 0 <= j < i ==> #[trigger] ascii_space(bytes[j]),
    ensures
        first_significant(bytes) == Some(bytes[i]),
    decreases i,
{
    if i > 0 {
        assert(ascii_space(bytes[0]));
        assert forall|j: int| 0 <= j < i - 1 implies #[trigger] ascii_space(bytes.drop_first()[j]) by {
            assert(bytes.drop_first()[j] == bytes[j + 1]);
            assert(ascii_space(bytes[j + 1]));
        }
        lemma_first_significant_at(bytes.drop_first(), i - 1);
    }
}

proof fn lemma_first_significant_found(bytes: Seq<u8>)
    ensures
        first_significant(bytes) matches Some(c) ==> exists|i: int|
            0 <= i < bytes.len() && bytes[i] == c && !ascii_space(c) && forall|j: int|
                0 <= j < i ==> #[trigger] ascii_space(bytes[j]),
    decreases bytes.len(),
{
    if bytes.len() > 0 && ascii_space(bytes[0]) {
        lemma_first_significant_found(bytes.drop_first());
        if let Some(c) = first_significant(bytes) {
            let i = choose|i: int|
                0 <= i < bytes.drop_first().len() && bytes.drop_first()[i] == c && !ascii_space(c) && forall|j: int|
                    0 <= j < i ==> #[trigger] ascii_space(bytes.drop_first()[j]);
            assert(bytes[i + 1] == c);
            assert forall|j: int| 0 <= j < i + 1 implies #[trigger] ascii_space(bytes[j]) by {
                if j > 0 {
                    assert(bytes[j] == bytes.drop_first()[j - 1]);
                }
            }
        }
    } else if bytes.len() > 0 {
        assert(forall|j: int| 0 <= j < 0 ==> #[trigger] ascii_space(bytes[j]));
    }
}

/// Without a media type, a Stream is taken for JSON exactly when, after ASCII
/// white space, it opens an object or an array.
pub proof fn law_identified_by_first_byte(bytes: Seq<u8>)
    ensures
        identifies(None, bytes) == exists|i: int| opens_document_at(bytes, i),
{
    lemma_first_significant_found(bytes);
    if exists|i: int| opens_document_at(bytes, i) {
        let i = choose|i: int| opens_document_at(bytes, i);
        assert forall|j: int| 0 <= j < i implies #[trigger] ascii_space(bytes[j]) by {
            assert(bytes[j] == 0x20u8 || bytes[j] == 0x09u8 || bytes[j] == 0x0Au8 || bytes[j] == 0x0Cu8 || bytes[j]
                == 0x0Du8);
        }
        lemma_first_significant_at(bytes, i);
    }
    if identifies(None, bytes) {
        let c = first_significant(bytes)->Some_0;
        let i = choose|i: int|
            0 <= i < bytes.len() && bytes[i] == c && !ascii_space(c) && forall|j: int|
                0 <= j < i ==> #[trigger] ascii_space(bytes[j]);
        assert(c == 0x7Bu8 || c == 0x5Bu8);
        assert forall|j: int| 0 <= j < i implies #[trigger] bytes[j] == 0x20u8 || bytes[j] == 0x09u8 || bytes[j]
            == 0x0Au8 || bytes[j] == 0x0Cu8 || bytes[j] == 0x0Du8 by {
            assert(ascii_space(bytes[j]));
        }
        assert(opens_document_at(bytes, i));
    }
}

/// A declared media type can only add Streams: one that opens an object or an
/// array after ASCII white space is taken for JSON whatever media type it
/// declares, and one declared as JSON is taken for JSON whatever its bytes.
pub proof fn law_media_type_only_adds(media_type: Option<String>, bytes: Seq<u8>)
    ensures
        identifies(None, bytes) ==> identifies(media_type, bytes),
        (exists|i: int| opens_document_at(bytes, i)) ==> identifies(media_type, bytes),
        (media_type is Some && json_media_type(media_type->Some_0@)) ==> identifies(media_type, bytes),
{
    law_identified_by_first_byte(bytes);
}

fn lower_of(c: char) -> (r: char)
    ensures
        r == ascii_lower(c),
{
    let x = c as u32;
    if 65 <= x && x <= 90 {
        let y = x + 32;
        if y == 97 { 'a' } else if y == 98 { 'b' } else if y == 99 { 'c' } else if y == 100 { 'd' }
        else if y == 101 { 'e' } else if y == 102 { 'f' } else if y == 103 { 'g' } else if y == 104 { 'h' }
        else if y == 105 { 'i' } else if y == 106 { 'j' } else if y == 107 { 'k' } else if y == 108 { 'l' }
        else if y == 109 { 'm' } else if y == 110 { 'n' } else if y == 111 { 'o' } else if y == 112 { 'p' }
        else if y == 113 { 'q' } else if y == 114 { 'r' } else if y == 115 { 's' } else if y == 116 { 't' }
        else if y == 117 { 'u' } else if y == 118 { 'v' } else if y == 119 { 'w' } else if y == 120 { 'x' }
        else if y == 121 { 'y' } else { 'z' }
    } else {
        c
    }
}

fn same_ignoring_case_in(cs: &Vec<char>, a: usize, b: usize, target: &Vec<char>) -> (r: bool)
    requires
        a <= b <= cs@.len(),
    ensures
        r == same_ignoring_case(cs@.subrange(a as int, b as int), target@),
{
    let ghost e = cs@.subrange(a as int, b as int);
    if b - a != target.len() {
        return false;
    }
    let mut k: usize = 0;
    while k < target.len()
        invariant
            a <= b <= cs@.len(),
            b - a == target@.len(),
            e == cs@.subrange(a as int, b as int),
            k <= target@.len(),
            forall|j: int| 0 <= j < k ==> #[trigger] ascii_lower(e[j]) == ascii_lower(target@[j]),
        decreases target@.len() - k,
    {
        if lower_of(cs[a + k]) != lower_of(target[k]) {
            assert(ascii_lower(e[k as int]) != ascii_lower(target@[k as int]));
            return false;
        }
        k = k + 1;
    }
    true
}

fn ends_with_in(cs: &Vec<char>, a: usize, b: usize, suffix: &Vec<char>) -> (r: bool)
    requires
        a <= b <= cs@.len(),
    ensures
        r == ({
            let e = cs@.subrange(a as int, b as int);
            e.len() >= suffix@.len() && e.skip(e.len() - suffix@.len()) == suffix@
        }),
{
    let ghost e = cs@.subrange(a as int, b as int);
    if b - a < suffix.len() {
        return false;
    }
    let start = b - suffix.len();
    let mut k: usize = 0;
    while k < suffix.len()
        invariant
            a <= start <= b <= cs@.len(),
            start + suffix@.len() == b,
            e == cs@.subrange(a as int, b as int),
            k <= suffix@.len(),
            forall|j: int| 0 <= j < k ==> cs@[start + j] == suffix@[j],
        decreases suffix@.len() - k,
    {
        if cs[start + k] != suffix[k] {
            assert(e.skip(e.len() - suffix@.len())[k as int] != suffix@[k as int]);
            return false;
        }
        k = k + 1;
    }
    assert(e.skip(e.len() - suffix@.len()) =~= suffix@);
    true
}

/// Whether a declared media type is JSON.
pub fn is_json_media_type(media_type: &str) -> (r: bool)
    ensures
        r == json_media_type(media_type@),
{
    let cs = chars_of(media_type);
    let mut part: Vec<char> = Vec::new();
    let mut end: usize = 0;
    assert(cs@.skip(0) =~= cs@);
    while end < cs.len() && cs[end] != ';'
        invariant
            end <= cs@.len(),
            part@ == cs@.take(end as int),
            before_semicolon(cs@) == part@ + before_semicolon(cs@.skip(end as int)),
        decreases cs@.len() - end,
    {
        assert(cs@.skip(end as int).drop_first() =~= cs@.skip(end + 1));
        part.push(cs[end]);
        end = end + 1;
        assert(part@ =~= cs@.take(end as int));
    }
    assert(before_semicolon(cs@) =~= part@);
    let (a, b) = trim_bounds(&part);
    let target = chars_of("application/json");
    let suffix = chars_of("+json");
    proof {
        reveal_strlit("+json");
    }
    same_ignoring_case_in(&part, a, b, &target) || ends_with_in(&part, a, b, &suffix)
}

} // verus!
