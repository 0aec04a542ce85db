//! The kinds of findings, their names and their severities.
use enum_map::EnumMap;
use vstd::prelude::*;

verus! {

/// How serious a finding is.
#[derive(Clone, Copy, PartialEq, Eq, Debug, Structural)]
pub enum Severity {
    Error,
    Warning,
    Hint,
}

/// The kind of a finding.
#[derive(Clone, Copy, PartialEq, Eq, Debug, Structural)]
pub enum ErrorCode {
    UnexpectedEOF,
    Expected,
    ExpectedName,
    OddNumberOfBytestringElements,
    IntError,
    NonDtsV1,
    NameTooLong,
    IllegalChar,
    IllegalStart,
    UnresolvedReference,
    PropertyReferencedByNode,
    NonStringInCompatible,
    PathCannotBeEmpty,
    PropertyAfterNode,
    UnbalancedParentheses,
    MisplacedDtsHeader,
    DuplicateDirective,
    IncorrectDirective,
    ParserError,
    IOError,
    ErrorsInInclude,
    CyclicDependencyError,
    ExpectedU32,
    ExpectedString,
    NotAPropertyContext,
    UnexpectedSize,
    UnexpectedFormat,
    CustomError,
    CustomWarning,
}

/// The kinds of findings in the order in which they are declared.
pub open spec fn all_codes() -> Seq<ErrorCode> {
    seq![
        ErrorCode::UnexpectedEOF,
        ErrorCode::Expected,
        ErrorCode::ExpectedName,
        ErrorCode::OddNumberOfBytestringElements,
        ErrorCode::IntError,
        ErrorCode::NonDtsV1,
        ErrorCode::NameTooLong,
        ErrorCode::IllegalChar,
        ErrorCode::IllegalStart,
        ErrorCode::UnresolvedReference,
        ErrorCode::PropertyReferencedByNode,
        ErrorCode::NonStringInCompatible,
        ErrorCode::PathCannotBeEmpty,
        ErrorCode::PropertyAfterNode,
        ErrorCode::UnbalancedParentheses,
        ErrorCode::MisplacedDtsHeader,
        ErrorCode::DuplicateDirective,
        ErrorCode::IncorrectDirective,
        ErrorCode::ParserError,
        ErrorCode::IOError,
        ErrorCode::ErrorsInInclude,
        ErrorCode::CyclicDependencyError,
        ErrorCode::ExpectedU32,
        ErrorCode::ExpectedString,
        ErrorCode::NotAPropertyContext,
        ErrorCode::UnexpectedSize,
        ErrorCode::UnexpectedFormat,
        ErrorCode::CustomError,
        ErrorCode::CustomWarning,
    ]
}

/// The place of a kind in [`all_codes`].
pub open spec fn spec_code_index(code: ErrorCode) -> u8 {
    match code {
        ErrorCode::UnexpectedEOF => 0,
        ErrorCode::Expected => 1,
        ErrorCode::ExpectedName => 2,
        ErrorCode::OddNumberOfBytestringElements => 3,
        ErrorCode::IntError => 4,
        ErrorCode::NonDtsV1 => 5,
        ErrorCode::NameTooLong => 6,
        ErrorCode::IllegalChar => 7,
        ErrorCode::IllegalStart => 8,
        ErrorCode::UnresolvedReference => 9,
        ErrorCode::PropertyReferencedByNode => 10,
        ErrorCode::NonStringInCompatible => 11,
        ErrorCode::PathCannotBeEmpty => 12,
        ErrorCode::PropertyAfterNode => 13,
        ErrorCode::UnbalancedParentheses => 14,
        ErrorCode::MisplacedDtsHeader => 15,
        ErrorCode::DuplicateDirective => 16,
        ErrorCode::IncorrectDirective => 17,
        ErrorCode::ParserError => 18,
        ErrorCode::IOError => 19,
        ErrorCode::ErrorsInInclude => 20,
        ErrorCode::CyclicDependencyError => 21,
        ErrorCode::ExpectedU32 => 22,
        ErrorCode::ExpectedString => 23,
        ErrorCode::NotAPropertyContext => 24,
        ErrorCode::UnexpectedSize => 25,
        ErrorCode::UnexpectedFormat => 26,
        ErrorCode::CustomError => 27,
        ErrorCode::CustomWarning => 28,
    }
}

/// The name under which a kind is reported.
pub open spec fn spec_code_name(code: ErrorCode) -> Seq<char> {
    match code {
        ErrorCode::UnexpectedEOF => "unexpected_eof"@,
        ErrorCode::Expected => "expected"@,
        ErrorCode::ExpectedName => "expected_name"@,
        ErrorCode::OddNumberOfBytestringElements => "odd_number_of_bytestring_elements"@,
        ErrorCode::IntError => "int_error"@,
        ErrorCode::NonDtsV1 => "non_dts_v1"@,
        ErrorCode::NameTooLong => "name_too_long"@,
        ErrorCode::IllegalChar => "illegal_char"@,
        ErrorCode::IllegalStart => "illegal_start"@,
        ErrorCode::UnresolvedReference => "unresolved_reference"@,
        ErrorCode::PropertyReferencedByNode => "property_referenced_by_node"@,
        ErrorCode::NonStringInCompatible => "non_string_in_compatible"@,
        ErrorCode::PathCannotBeEmpty => "path_cannot_be_empty"@,
        ErrorCode::PropertyAfterNode => "property_after_node"@,
        ErrorCode::UnbalancedParentheses => "unbalanced_parentheses"@,
        ErrorCode::MisplacedDtsHeader => "misplaced_dts_header"@,
        ErrorCode::DuplicateDirective => "duplicate_directive"@,
        ErrorCode::IncorrectDirective => "incorrect_directive"@,
        ErrorCode::ParserError => "parser_error"@,
        ErrorCode::IOError => "io_error"@,
        ErrorCode::ErrorsInInclude => "errors_in_include"@,
        ErrorCode::CyclicDependencyError => "cyclic_dependency_error"@,
        ErrorCode::ExpectedU32 => "expected_u32"@,
        ErrorCode::ExpectedString => "expected_string"@,
        ErrorCode::NotAPropertyContext => "not_a_property_context"@,
        ErrorCode::UnexpectedSize => "unexpected_size"@,
        ErrorCode::UnexpectedFormat => "unexpected_format"@,
        ErrorCode::CustomError => "custom_error"@,
        ErrorCode::CustomWarning => "custom_warning"@,
    }
}

/// The severity that a kind has unless a project says otherwise.
pub open spec fn default_severity(code: ErrorCode) -> Severity {
    match code {
        ErrorCode::NameTooLong
        | ErrorCode::NonStringInCompatible
        | ErrorCode::ExpectedU32
        | ErrorCode::ExpectedString
        | ErrorCode::UnexpectedSize
        | ErrorCode::UnexpectedFormat
        | ErrorCode::DuplicateDirective
        | ErrorCode::CustomWarning => Severity::Warning,
        _ => Severity::Error,
    }
}

impl ErrorCode {
    /// The place of this kind in the order in which the kinds are declared.
    pub fn index(self) -> (r: u8)
        ensures
            r == spec_code_index(self),
            r < all_codes().len(),
            all_codes()[r as int] == self,
    {
        match self {
            ErrorCode::UnexpectedEOF => 0,
            ErrorCode::Expected => 1,
            ErrorCode::ExpectedName => 2,
            ErrorCode::OddNumberOfBytestringElements => 3,
            ErrorCode::IntError => 4,
            ErrorCode::NonDtsV1 => 5,
            ErrorCode::NameTooLong => 6,
            ErrorCode::IllegalChar => 7,
            ErrorCode::IllegalStart => 8,
            ErrorCode::UnresolvedReference => 9,
            ErrorCode::PropertyReferencedByNode => 10,
            ErrorCode::NonStringInCompatible => 11,
            ErrorCode::PathCannotBeEmpty => 12,
            ErrorCode::PropertyAfterNode => 13,
            ErrorCode::UnbalancedParentheses => 14,
            ErrorCode::MisplacedDtsHeader => 15,
            ErrorCode::DuplicateDirective => 16,
            ErrorCode::IncorrectDirective => 17,
            ErrorCode::ParserError => 18,
            ErrorCode::IOError => 19,
            ErrorCode::ErrorsInInclude => 20,
            ErrorCode::CyclicDependencyError => 21,
            ErrorCode::ExpectedU32 => 22,
            ErrorCode::ExpectedString => 23,
            ErrorCode::NotAPropertyContext => 24,
            ErrorCode::UnexpectedSize => 25,
            ErrorCode::UnexpectedFormat => 26,
            ErrorCode::CustomError => 27,
            ErrorCode::CustomWarning => 28,
        }
    }

    /// The kind at a place in the order in which the kinds are declared.
    pub fn at(index: u8) -> (r: Option<ErrorCode>)
        ensures
            r == if index < all_codes().len() {
                Some(all_codes()[index as int])
            } else {
                None
            },
    {
        match index {
            0 => Some(ErrorCode::UnexpectedEOF),
            1 => Some(ErrorCode::Expected),
            2 => Some(ErrorCode::ExpectedName),
            3 => Some(ErrorCode::OddNumberOfBytestringElements),
            4 => Some(ErrorCode::IntError),
            5 => Some(ErrorCode::NonDtsV1),
            6 => Some(ErrorCode::NameTooLong),
            7 => Some(ErrorCode::IllegalChar),
            8 => Some(ErrorCode::IllegalStart),
            9 => Some(ErrorCode::UnresolvedReference),
            10 => Some(ErrorCode::PropertyReferencedByNode),
            11 => Some(ErrorCode::NonStringInCompatible),
            12 => Some(ErrorCode::PathCannotBeEmpty),
            13 => Some(ErrorCode::PropertyAfterNode),
            14 => Some(ErrorCode::UnbalancedParentheses),
            15 => Some(ErrorCode::MisplacedDtsHeader),
            16 => Some(ErrorCode::DuplicateDirective),
            17 => Some(ErrorCode::IncorrectDirective),
            18 => Some(ErrorCode::ParserError),
            19 => Some(ErrorCode::IOError),
            20 => Some(ErrorCode::ErrorsInInclude),
            21 => Some(ErrorCode::CyclicDependencyError),
            22 => Some(ErrorCode::ExpectedU32),
            23 => Some(ErrorCode::ExpectedString),
            24 => Some(ErrorCode::NotAPropertyContext),
            25 => Some(ErrorCode::UnexpectedSize),
            26 => Some(ErrorCode::UnexpectedFormat),
            27 => Some(ErrorCode::CustomError),
            28 => Some(ErrorCode::CustomWarning),
            _ => None,
        }
    }

    /// The severity of this kind unless a project says otherwise.
    pub fn default_severity(self) -> (r: Severity)
        ensures
            r == default_severity(self),
    {
        match self {
            ErrorCode::NameTooLong
            | ErrorCode::NonStringInCompatible
            | ErrorCode::ExpectedU32
            | ErrorCode::ExpectedString
            | ErrorCode::UnexpectedSize
            | ErrorCode::UnexpectedFormat
            | ErrorCode::DuplicateDirective
            | ErrorCode::CustomWarning => Severity::Warning,
            _ => Severity::Error,
        }
    }

    /// The name of this kind, in snake case.
    pub fn as_str(self) -> (r: &'static str)
        ensures
            r@ == spec_code_name(self),
    {
        match self {
            ErrorCode::UnexpectedEOF => "unexpected_eof",
            ErrorCode::Expected => "expected",
            ErrorCode::ExpectedName => "expected_name",
            ErrorCode::OddNumberOfBytestringElements => "odd_number_of_bytestring_elements",
            ErrorCode::IntError => "int_error",
            ErrorCode::NonDtsV1 => "non_dts_v1",
            ErrorCode::NameTooLong => "name_too_long",
            ErrorCode::IllegalChar => "illegal_char",
            ErrorCode::IllegalStart => "illegal_start",
            ErrorCode::UnresolvedReference => "unresolved_reference",
            ErrorCode::PropertyReferencedByNode => "property_referenced_by_node",
            ErrorCode::NonStringInCompatible => "non_string_in_compatible",
            ErrorCode::PathCannotBeEmpty => "path_cannot_be_empty",
            ErrorCode::PropertyAfterNode => "property_after_node",
            ErrorCode::UnbalancedParentheses => "unbalanced_parentheses",
            ErrorCode::MisplacedDtsHeader => "misplaced_dts_header",
            ErrorCode::DuplicateDirective => "duplicate_directive",
            ErrorCode::IncorrectDirective => "incorrect_directive",
            ErrorCode::ParserError => "parser_error",
            ErrorCode::IOError => "io_error",
            ErrorCode::ErrorsInInclude => "errors_in_include",
            ErrorCode::CyclicDependencyError => "cyclic_dependency_error",
            ErrorCode::ExpectedU32 => "expected_u32",
            ErrorCode::ExpectedString => "expected_string",
            ErrorCode::NotAPropertyContext => "not_a_property_context",
            ErrorCode::UnexpectedSize => "unexpected_size",
            ErrorCode::UnexpectedFormat => "unexpected_format",
            ErrorCode::CustomError => "custom_error",
            ErrorCode::CustomWarning => "custom_warning",
        }
    }

    /// The kind that has this name.
    pub fn from_name(name: &str) -> (r: Option<ErrorCode>)
        ensures
            match r {
                Some(code) => spec_code_name(code) == name@,
                None => forall|other: ErrorCode| #[trigger] spec_code_name(other) != name@,
            },
    {
        let wanted = name.to_owned();
        let mut index: u8 = 0;
        while index < 29
            invariant
                index <= 29,
                wanted@ == name@,
                forall|i: int|
                    0 <= i < index ==> spec_code_name(#[trigger] all_codes()[i]) != name@,
            decreases 29 - index,
        {
            if let Some(code) = ErrorCode::at(index) {
                if code.as_str().to_owned() == wanted {
                    return Some(code);
                }
            }
            index += 1;
        }
        proof {
            assert forall|code: ErrorCode| #[trigger] spec_code_name(code) != name@ by {
                assert(all_codes()[spec_code_index(code) as int] == code);
            }
        }
        None
    }
}

/// The length and the first character of the name of a kind, which tell it from
/// every other kind.
spec fn name_shape(code: ErrorCode) -> (nat, char) {
    match code {
        ErrorCode::UnexpectedEOF => (14, 'u'),
        ErrorCode::Expected => (8, 'e'),
        ErrorCode::ExpectedName => (13, 'e'),
        ErrorCode::OddNumberOfBytestringElements => (33, 'o'),
        ErrorCode::IntError => (9, 'i'),
        ErrorCode::NonDtsV1 => (10, 'n'),
        ErrorCode::NameTooLong => (13, 'n'),
        ErrorCode::IllegalChar => (12, 'i'),
        ErrorCode::IllegalStart => (13, 'i'),
        ErrorCode::UnresolvedReference => (20, 'u'),
        ErrorCode::PropertyReferencedByNode => (27, 'p'),
        ErrorCode::NonStringInCompatible => (24, 'n'),
        ErrorCode::PathCannotBeEmpty => (20, 'p'),
        ErrorCode::PropertyAfterNode => (19, 'p'),
        ErrorCode::UnbalancedParentheses => (22, 'u'),
        ErrorCode::MisplacedDtsHeader => (20, 'm'),
        ErrorCode::DuplicateDirective => (19, 'd'),
        ErrorCode::IncorrectDirective => (19, 'i'),
        ErrorCode::ParserError => (12, 'p'),
        ErrorCode::IOError => (8, 'i'),
        ErrorCode::ErrorsInInclude => (17, 'e'),
        ErrorCode::CyclicDependencyError => (23, 'c'),
        ErrorCode::ExpectedU32 => (12, 'e'),
        ErrorCode::ExpectedString => (15, 'e'),
        ErrorCode::NotAPropertyContext => (22, 'n'),
        ErrorCode::UnexpectedSize => (15, 'u'),
        ErrorCode::UnexpectedFormat => (17, 'u'),
        ErrorCode::CustomError => (12, 'c'),
        ErrorCode::CustomWarning => (14, 'c'),
    }
}

proof fn lemma_name_shape(code: ErrorCode)
    ensures
        spec_code_name(code).len() == name_shape(code).0,
        spec_code_name(code)[0] == name_shape(code).1,
{
    match code {
        ErrorCode::UnexpectedEOF => {
            reveal_strlit("unexpected_eof");
        },
        ErrorCode::Expected => {
            reveal_strlit("expected");
        },
        ErrorCode::ExpectedName => {
            reveal_strlit("expected_name");
        },
        ErrorCode::OddNumberOfBytestringElements => {
            reveal_strlit("odd_number_of_bytestring_elements");
        },
        ErrorCode::IntError => {
            reveal_strlit("int_error");
        },
        ErrorCode::NonDtsV1 => {
            reveal_strlit("non_dts_v1");
        },
        ErrorCode::NameTooLong => {
            reveal_strlit("name_too_long");
        },
        ErrorCode::IllegalChar => {
            reveal_strlit("illegal_char");
        },
        ErrorCode::IllegalStart => {
            reveal_strlit("illegal_start");
        },
        ErrorCode::UnresolvedReference => {
            reveal_strlit("unresolved_reference");
        },
        ErrorCode::PropertyReferencedByNode => {
            reveal_strlit("property_referenced_by_node");
        },
        ErrorCode::NonStringInCompatible => {
            reveal_strlit("non_string_in_compatible");
        },
        ErrorCode::PathCannotBeEmpty => {
            reveal_strlit("path_cannot_be_empty");
        },
        ErrorCode::PropertyAfterNode => {
            reveal_strlit("property_after_node");
        },
        ErrorCode::UnbalancedParentheses => {
            reveal_strlit("unbalanced_parentheses");
        },
        ErrorCode::MisplacedDtsHeader => {
            reveal_strlit("misplaced_dts_header");
        },
        ErrorCode::DuplicateDirective => {
            reveal_strlit("duplicate_directive");
        },
        ErrorCode::IncorrectDirective => {
            reveal_strlit("incorrect_directive");
        },
        ErrorCode::ParserError => {
            reveal_strlit("parser_error");
        },
        ErrorCode::IOError => {
            reveal_strlit("io_error");
        },
        ErrorCode::ErrorsInInclude => {
            reveal_strlit("errors_in_include");
        },
        ErrorCode::CyclicDependencyError => {
            reveal_strlit("cyclic_dependency_error");
        },
        ErrorCode::ExpectedU32 => {
            reveal_strlit("expected_u32");
        },
        ErrorCode::ExpectedString => {
            reveal_strlit("expected_string");
        },
        ErrorCode::NotAPropertyContext => {
            reveal_strlit("not_a_property_context");
        },
        ErrorCode::UnexpectedSize => {
            reveal_strlit("unexpected_size");
        },
        ErrorCode::UnexpectedFormat => {
            reveal_strlit("unexpected_format");
        },
        ErrorCode::CustomError => {
            reveal_strlit("custom_error");
        },
        ErrorCode::CustomWarning => {
            reveal_strlit("custom_warning");
        },
    }
}

/// Two kinds never share a name.
pub proof fn lemma_code_names_differ(a: ErrorCode, b: ErrorCode)
    ensures
        spec_code_name(a) == spec_code_name(b) ==> a == b,
{
    lemma_name_shape(a);
    lemma_name_shape(b);
}

/// A table with one severity for each of 256 numbers, kept in an
/// `enum_map::EnumMap`.
#[verifier::external_body]
#[derive(PartialEq, Eq, Debug)]
pub struct SeverityTable {
    inner: EnumMap<u8, Severity>,
}

/// What a table holds for each number.
pub uninterp spec fn severities_in(table: SeverityTable) -> Map<u8, Severity>;

/// The default severity of the kind at a place, which is also the severity
/// that stands at the places where there is no kind.
pub open spec fn default_severity_at(index: u8) -> Severity {
    if index < all_codes().len() {
        default_severity(all_codes()[index as int])
    } else {
        Severity::Error
    }
}

fn severity_at(index: u8) -> (r: Severity)
    ensures
        r == default_severity_at(index),
{
    match ErrorCode::at(index) {
        Some(code) => code.default_severity(),
        None => Severity::Error,
    }
}

/// Calls `enum_map::EnumMap::from_fn`, which makes a map that holds for each
/// number what the given function returns for it.
#[verifier::external_body]
fn default_table() -> (r: SeverityTable)
    ensures
        forall|index: u8| #[trigger] severities_in(r).contains_key(index),
        forall|index: u8| #[trigger] severities_in(r)[index] == default_severity_at(index),
{
    SeverityTable { inner: EnumMap::from_fn(|index| severity_at(index)) }
}

/// Calls `enum_map::EnumMap`'s `index`, which returns what the map holds for a
/// number.
#[verifier::external_body]
fn table_entry(table: &SeverityTable, index: u8) -> (r: &Severity)
    ensures
        *r == severities_in(*table)[index],
{
    &table.inner[index]
}

impl Clone for SeverityTable {
    fn clone(&self) -> (r: SeverityTable)
        ensures
            r == *self,
    {
        *self
    }
}

impl Copy for SeverityTable {

}

/// The `SeverityMap` maps error codes to severities.
///
/// Each error code is mapped to exactly one severity. Implementation for `Index` is
/// provided, so elements within the map can be accessed using the `[]` operator.
#[derive(Clone, Copy, PartialEq, Eq, Debug)]
pub struct SeverityMap {
    inner: SeverityTable,
}

impl SeverityMap {
    /// The severity that this map gives to a kind.
    pub closed spec fn severity(self, code: ErrorCode) -> Severity {
        severities_in(self.inner)[spec_code_index(code)]
    }
}

impl vstd::std_specs::core::IndexSpecImpl<ErrorCode> for SeverityMap {
    open spec fn index_req(&self, index: &ErrorCode) -> bool {
        true
    }
}

impl std::ops::Index<ErrorCode> for SeverityMap {
    type Output = Severity;

    /// The severity that this map gives to a kind.
    fn index(&self, key: ErrorCode) -> (r: &Severity)
        ensures
            *r == self.severity(key),
    {
        table_entry(&self.inner, key.index())
    }
}

impl Default for SeverityMap {
    fn default() -> (r: SeverityMap)
        ensures
            forall|code: ErrorCode| #[trigger] r.severity(code) == default_severity(code),
    {
        let r = SeverityMap { inner: default_table() };
        proof {
            assert forall|code: ErrorCode| #[trigger]
                r.severity(code) == default_severity(code) by {
                assert(all_codes()[spec_code_index(code) as int] == code);
            }
        }
        r
    }
}

} // verus!
