use ginko::ast::{
    AbsolutePath, AnyDirective, Cell, DotRelativePath, DtsFile, Include, LabelRelativePath,
    Memreserve, Node, NodeItem, NodeName, NodePayload, NumberRepr, Path, Primary, Property,
    PropertyPath, PropertyValue, Reference, ReferencedNode, WithToken,
};
use ginko::data::{HasSource, HasSpan, Position, Span, Token};
use ginko::diagnostics::Diagnostic;
use ginko::error_codes::{ErrorCode, Severity, SeverityMap};
use ginko::graph::reached;
use ginko::import_guard::{CyclicDependency, ImportGuard};
use ginko::keyed::KeyedMap;
use ginko::text::write_number;
use std::sync::Arc;

fn span(start: u32, end: u32) -> Span {
    Position::new(0, start).to(Position::new(0, end))
}

fn token(start: u32, end: u32) -> Token {
    Token::new(span(start, end), 9)
}

fn at<T>(item: T) -> WithToken<T> {
    WithToken::new(item, token(0, 1))
}

fn text(item: &str) -> WithToken<String> {
    at(item.to_string())
}

fn label(item: &str) -> WithToken<Reference> {
    at(Reference::Label(item.to_string()))
}

fn inclusion(name: &str) -> Include {
    Include {
        include_token: token(0, 9),
        file_name: WithToken::new(name.to_string(), token(10, 14)),
    }
}

fn property(name: &str, values: Vec<PropertyValue>) -> Property {
    Property {
        label: None,
        name: WithToken::new(name.to_string(), token(4, 8)),
        values,
        end: token(20, 21),
    }
}

fn payload(items: Vec<NodeItem>) -> NodePayload {
    NodePayload {
        items,
        end: token(30, 31),
    }
}

fn node(label: Option<&str>, name: NodeName, items: Vec<NodeItem>) -> Node {
    Node {
        label: label.map(|label| WithToken::new(label.to_string(), token(1, 3))),
        name: WithToken::new(name, token(4, 8)),
        payload: payload(items),
        omit_if_no_ref: None,
        span: span(1, 31),
    }
}

#[test]
fn numbers_in_writing() {
    assert_eq!(write_number(0, 10), "0");
    assert_eq!(write_number(0, 16), "0");
    assert_eq!(write_number(10, 16), "a");
    assert_eq!(write_number(255, 16), "ff");
    assert_eq!(write_number(8, 8), "10");
    assert_eq!(write_number(1990, 10), "1990");
    assert_eq!(write_number(5, 2), "101");
    assert_eq!(write_number(u64::MAX, 10), "18446744073709551615");
    assert_eq!(write_number(u64::MAX, 16), "ffffffffffffffff");
    for number in [0, 1, 15, 16, 17, 123456789, u64::MAX] {
        for base in 2..=16 {
            let text = write_number(number, base);
            assert_eq!(u64::from_str_radix(&text, base as u32), Ok(number));
        }
    }
}

#[test]
fn cells_in_writing() {
    assert_eq!(Cell::hexadecimal(at(0xab)).to_string(), "0xab");
    assert_eq!(Cell::decimal(at(17)).to_string(), "17");
    assert_eq!(Cell::Number(at(8), NumberRepr::Octal).to_string(), "010");
    assert_eq!(
        Cell::Number(at(u32::MAX), NumberRepr::Octal).to_string(),
        "037777777777"
    );
    assert_eq!(Cell::decimal(at(u32::MAX)).to_string(), "4294967295");
    assert_eq!(Cell::Reference(label("l")).to_string(), "&l");
    assert_eq!(Cell::Expression(text("(1 + 2)")).to_string(), "(1 + 2)");
}

#[test]
fn values_in_writing() {
    let cells = |cells| PropertyValue::Cells(token(0, 1), cells, token(2, 3));
    let bytes = |bytes| PropertyValue::ByteStrings(token(0, 1), bytes, token(2, 3));
    assert_eq!(PropertyValue::String(text("a b")).to_string(), "\"a b\"");
    assert_eq!(cells(vec![]).to_string(), "<>");
    assert_eq!(
        cells(vec![
            Cell::decimal(at(1)),
            Cell::hexadecimal(at(2)),
            Cell::Reference(label("l"))
        ])
        .to_string(),
        "<1 0x2 &l>"
    );
    assert_eq!(bytes(vec![]).to_string(), "[]");
    assert_eq!(
        bytes(vec![at(vec![0, 1, 0xab]), at(vec![]), at(vec![0x10])]).to_string(),
        "[ 0 1ab  10]"
    );
    assert_eq!(PropertyValue::Reference(label("l")).to_string(), "&l");
    assert_eq!(
        PropertyValue::Incbin(token(0, 1), inclusion("f.bin"), token(2, 3)).to_string(),
        "/incbin/(\"/include/ \"f.bin\"\")"
    );
}

#[test]
fn properties_and_nodes_in_writing() {
    let empty = property("empty", vec![]);
    assert_eq!(empty.to_string(), "empty;\n");
    let full = property(
        "full",
        vec![
            PropertyValue::String(text("a")),
            PropertyValue::Reference(label("l")),
        ],
    );
    assert_eq!(full.to_string(), "full = \"a\", &l;\n");
    assert_eq!(payload(vec![]).to_string(), "{\n};");
    let inner = node(
        None,
        NodeName::with_address("inner", "1"),
        vec![
            NodeItem::DeletedNode(token(0, 1), at(NodeName::with_address("gone", "2"))),
            NodeItem::DeletedProperty(token(0, 1), text("lost")),
        ],
    );
    let outer = node(
        Some("label"),
        NodeName::simple("outer"),
        vec![
            NodeItem::Property(Arc::new(empty)),
            NodeItem::Node(Arc::new(inner)),
        ],
    );
    assert_eq!(
        outer.to_string(),
        "label: outer {\n    empty;\n\n    inner@1 {\n    /delete-node/ gone@2\n    \
         /delete-property/ lost\n};\n};"
    );
}

#[test]
fn files_in_writing() {
    let file = DtsFile {
        elements: vec![
            Primary::Directive(AnyDirective::DtsHeader(token(0, 1))),
            Primary::Directive(AnyDirective::Plugin(token(0, 1))),
            Primary::Directive(AnyDirective::Memreserve(Memreserve::new(
                at(0x1000),
                at(0x20),
            ))),
            Primary::Directive(AnyDirective::Include(inclusion("a.dtsi"))),
            Primary::Directive(AnyDirective::DeletedNode(token(0, 1), label("a"))),
            Primary::Directive(AnyDirective::OmitIfNoRef(token(0, 1), label("b"))),
            Primary::Root(Arc::new(node(None, NodeName::simple("/"), vec![]))),
            Primary::ReferencedNode(Arc::new(ReferencedNode {
                label: Some(text("unseen")),
                reference: at(Reference::Path("/c/d".into())),
                payload: payload(vec![]),
                span: span(0, 1),
            })),
            Primary::CStyleInclude("<e.h>".to_string()),
        ],
        source: 9,
    };
    assert_eq!(
        file.to_string(),
        "/dts-v1/;\n/plugin/;\n/memreserve/ 0x1000 0x20;;\n/include/ \"a.dtsi\"\n\
         /delete-node/ &a;\n/omit-if-no-ref/ &b;\n/ {\n};\n&{/c/d} {\n};\n#include <e.h>\n"
    );
    assert_eq!(file.source(), 9);
    assert_eq!(
        file.elements[3].as_include().unwrap().file_name(),
        "a.dtsi"
    );
    assert!(file.elements[0].as_include().is_none());
}

#[test]
fn references_in_writing() {
    assert_eq!(Reference::Label("l".into()).to_string(), "&l");
    assert_eq!(Reference::Path("./a/b@1".into()).to_string(), "&{./a/b@1}");
    assert_eq!(
        Reference::PropertyPath("l/a/p".into()).to_string(),
        "${l/a/p}"
    );
}

#[test]
fn names_are_split_at_the_first_at() {
    assert_eq!(NodeName::from("a"), NodeName::simple("a"));
    assert_eq!(NodeName::from("a@b@c"), NodeName::with_address("a", "b@c"));
    assert_eq!(NodeName::from("@"), NodeName::with_address("", ""));
    assert_eq!(
        NodeName::from("x@1".to_string()),
        NodeName::with_address("x", "1")
    );
    let name: WithToken<NodeName> = text("y@2").into();
    assert_eq!(name.item(), &NodeName::with_address("y", "2"));
    assert_eq!(name.span(), span(0, 1));
}

#[test]
fn paths_are_read() {
    let names = |names: &[&str]| -> Vec<NodeName> {
        names.iter().map(|name| NodeName::from(*name)).collect()
    };
    assert_eq!(Path::from("/"), Path::empty());
    assert_eq!(Path::from("/a/b@1"), Path::new_absolute(names(&["a", "b@1"])));
    assert_eq!(Path::from("//a///b/"), Path::new_absolute(names(&["a", "b"])));
    assert_eq!(Path::from("./"), Path::new_dot_relative(vec![]));
    assert_eq!(Path::from("./a"), Path::new_dot_relative(names(&["a"])));
    assert_eq!(Path::from("."), Path::new_label_relative(".".into(), vec![]));
    assert_eq!(Path::from(""), Path::new_label_relative("".into(), vec![]));
    assert_eq!(
        Path::from("l/a//b".to_string()),
        Path::new_label_relative("l".into(), names(&["a", "b"]))
    );
    assert_eq!(
        PropertyPath::from("/a/p"),
        PropertyPath::new("/a".into(), "p".into())
    );
    assert_eq!(
        PropertyPath::from("p"),
        PropertyPath::new(Path::empty(), "p".into())
    );
    assert_eq!(
        PropertyPath::from("/p"),
        PropertyPath::new(Path::new_label_relative("".into(), vec![]), "p".into())
    );
    assert_eq!(
        PropertyPath::from("./a/"),
        PropertyPath::new("./a".into(), "".into())
    );
}

#[test]
fn written_paths_are_read_back() {
    for text in ["/", "/a", "/a@1/b", "./", "./a/b", "l", "l/a@1@2", "", "."] {
        assert_eq!(Path::from(text).to_string(), text);
    }
    for text in ["//a/", "l//a", ".//a", "l/"] {
        let path = Path::from(text);
        assert_eq!(Path::from(path.to_string()), path);
    }
    for text in ["/a/p", "./a/b/p", "l/p", "l/a/p"] {
        let path = PropertyPath::from(text);
        assert_eq!(path.to_string(), text);
        assert_eq!(path.property_name(), "p");
        assert_eq!(&PropertyPath::from(path.to_string().as_str()), &path);
    }
}

#[test]
fn elements_of_paths() {
    let path = Path::from("l/a/b");
    let names: Vec<String> = path.iter().map(|name| name.to_string()).collect();
    assert_eq!(names, vec!["a", "b"]);
    assert_eq!(path.elements().len(), 2);
    let root = AbsolutePath::root();
    assert!(root.is_root());
    let child = root.with_child(NodeName::simple("a"));
    assert!(!child.is_root());
    let grandchild = child.with_children(&[NodeName::simple("b"), NodeName::simple("c")]);
    assert_eq!(grandchild.to_string(), "/a/b/c");
    assert!(grandchild.same(&grandchild.clone()));
    assert!(!grandchild.same(&child));
    if let Path::LabelRelative(path) = &path {
        assert_eq!(path.elements().len(), 2);
        assert_eq!(path.label, "l");
    }
    if let Path::DotRelative(path) = Path::from("./x") {
        assert_eq!(path.elements(), &[NodeName::simple("x")]);
    }
}

#[test]
fn spans_of_parts() {
    let cells = PropertyValue::Cells(token(2, 3), vec![], token(7, 8));
    assert_eq!(cells.span(), span(2, 8));
    assert_eq!(cells.source(), 9);
    let bytes = PropertyValue::ByteStrings(token(3, 4), vec![], token(5, 6));
    assert_eq!(bytes.span(), span(3, 6));
    let incbin = PropertyValue::Incbin(token(11, 12), inclusion("f"), token(15, 16));
    assert_eq!(incbin.span(), span(0, 16));
    assert_eq!(PropertyValue::String(text("a")).span(), span(0, 1));
    assert_eq!(PropertyValue::Reference(label("a")).source(), 9);
    let mut labeled = property("p", vec![]);
    assert_eq!(labeled.span(), span(4, 21));
    labeled.label = Some(WithToken::new("l".to_string(), token(1, 3)));
    assert_eq!(labeled.span(), span(1, 21));
    assert_eq!(node(None, NodeName::simple("n"), vec![]).span(), span(4, 31));
    assert_eq!(
        node(Some("l"), NodeName::simple("n"), vec![]).span(),
        span(1, 31)
    );
    assert_eq!(inclusion("f").span(), span(0, 14));
    let empty = Property::empty(text("e"), None, token(8, 9));
    assert!(empty.values.is_empty());
    assert_eq!(empty.start(), Position::new(0, 0));
    assert_eq!(empty.end(), Position::new(0, 9));
    assert_eq!(Position::new(3, 4).as_span().start().line(), 3);
    assert_eq!(Position::new(3, 4).as_span().end().character(), 4);
    assert_eq!(Span::new(Position::zero(), Position::new(0, 1)), span(0, 1));
}

const CODES: [(ErrorCode, &str, Severity); 29] = [
    (ErrorCode::UnexpectedEOF, "unexpected_eof", Severity::Error),
    (ErrorCode::Expected, "expected", Severity::Error),
    (ErrorCode::ExpectedName, "expected_name", Severity::Error),
    (
        ErrorCode::OddNumberOfBytestringElements,
        "odd_number_of_bytestring_elements",
        Severity::Error,
    ),
    (ErrorCode::IntError, "int_error", Severity::Error),
    (ErrorCode::NonDtsV1, "non_dts_v1", Severity::Error),
    (ErrorCode::NameTooLong, "name_too_long", Severity::Warning),
    (ErrorCode::IllegalChar, "illegal_char", Severity::Error),
    (ErrorCode::IllegalStart, "illegal_start", Severity::Error),
    (
        ErrorCode::UnresolvedReference,
        "unresolved_reference",
        Severity::Error,
    ),
    (
        ErrorCode::PropertyReferencedByNode,
        "property_referenced_by_node",
        Severity::Error,
    ),
    (
        ErrorCode::NonStringInCompatible,
        "non_string_in_compatible",
        Severity::Warning,
    ),
    (
        ErrorCode::PathCannotBeEmpty,
        "path_cannot_be_empty",
        Severity::Error,
    ),
    (
        ErrorCode::PropertyAfterNode,
        "property_after_node",
        Severity::Error,
    ),
    (
        ErrorCode::UnbalancedParentheses,
        "unbalanced_parentheses",
        Severity::Error,
    ),
    (
        ErrorCode::MisplacedDtsHeader,
        "misplaced_dts_header",
        Severity::Error,
    ),
    (
        ErrorCode::DuplicateDirective,
        "duplicate_directive",
        Severity::Warning,
    ),
    (
        ErrorCode::IncorrectDirective,
        "incorrect_directive",
        Severity::Error,
    ),
    (ErrorCode::ParserError, "parser_error", Severity::Error),
    (ErrorCode::IOError, "io_error", Severity::Error),
    (
        ErrorCode::ErrorsInInclude,
        "errors_in_include",
        Severity::Error,
    ),
    (
        ErrorCode::CyclicDependencyError,
        "cyclic_dependency_error",
        Severity::Error,
    ),
    (ErrorCode::ExpectedU32, "expected_u32", Severity::Warning),
    (
        ErrorCode::ExpectedString,
        "expected_string",
        Severity::Warning,
    ),
    (
        ErrorCode::NotAPropertyContext,
        "not_a_property_context",
        Severity::Error,
    ),
    (
        ErrorCode::UnexpectedSize,
        "unexpected_size",
        Severity::Warning,
    ),
    (
        ErrorCode::UnexpectedFormat,
        "unexpected_format",
        Severity::Warning,
    ),
    (ErrorCode::CustomError, "custom_error", Severity::Error),
    (
        ErrorCode::CustomWarning,
        "custom_warning",
        Severity::Warning,
    ),
];

#[test]
fn names_and_severities_of_kinds() {
    let severities = SeverityMap::default();
    for (at, (code, name, severity)) in CODES.iter().enumerate() {
        assert_eq!(code.as_str(), *name);
        assert_eq!(ErrorCode::from_name(name), Some(*code));
        assert_eq!(severities[*code], *severity);
        assert_eq!(code.index(), at as u8);
        assert_eq!(ErrorCode::at(at as u8), Some(*code));
        let diagnostic = Diagnostic::from_token(token(1, 2), *code, "m");
        assert_eq!(diagnostic.severity(&severities), *severity);
        assert_eq!(diagnostic.span(), span(1, 2));
    }
    assert_eq!(ErrorCode::at(29), None);
    assert_eq!(ErrorCode::from_name("UnexpectedEOF"), None);
    assert_eq!(ErrorCode::from_name(""), None);
    assert_eq!(severities, SeverityMap::default());
    let copy = severities;
    assert_eq!(copy, severities.clone());
    assert_eq!(copy[ErrorCode::NameTooLong], Severity::Warning);
}

#[test]
fn clones_say_the_same() {
    let names = vec![NodeName::simple("a"), NodeName::with_address("b", "1")];
    let dot = DotRelativePath {
        elements: names.clone(),
    };
    assert_eq!(dot.clone(), dot);
    assert_eq!(dot.clone().elements(), names.as_slice());
    let relative = LabelRelativePath {
        label: "l".to_string(),
        elements: names.clone(),
    };
    assert_eq!(relative.clone(), relative);
    assert_eq!(relative.clone().label, "l");
    for path in [
        Path::Absolute(AbsolutePath {
            elements: names.clone(),
        }),
        Path::DotRelative(dot),
        Path::LabelRelative(relative),
    ] {
        assert_eq!(path.clone(), path);
    }
    for cell in [
        Cell::hexadecimal(at(0xab)),
        Cell::Reference(label("l")),
        Cell::Expression(text("(1 + 2)")),
    ] {
        assert_eq!(cell.clone(), cell);
    }
    let inclusion = inclusion("f.dtsi");
    assert_eq!(inclusion.clone(), inclusion);
    assert_eq!(inclusion.clone().file_name(), "f.dtsi");
}

#[test]
fn imports_in_a_circle_are_refused() {
    let mut guard = ImportGuard::new();
    assert_eq!(guard.add(2, &[1]), Ok(()));
    assert_eq!(guard.add(3, &[2]), Ok(()));
    assert_eq!(guard.add(3, &[1]), Ok(()));
    assert_eq!(
        guard.add(1, &[4, 3]),
        Err(CyclicDependency {
            file: 1,
            importer: 3
        })
    );
    assert_eq!(
        guard.add(5, &[5]),
        Err(CyclicDependency {
            file: 5,
            importer: 5
        })
    );
    assert_eq!(guard.add(1, &[4]), Ok(()));
    assert_eq!(guard.add(9, &[]), Ok(()));
    let mut files: Vec<u64> = reached(&guard, 4).into_iter().collect();
    files.sort();
    assert_eq!(files, vec![1, 2, 3, 4]);
}

#[test]
fn maps_hold_each_key_once() {
    let mut map: KeyedMap<String, u64> = KeyedMap::new();
    assert_eq!(map.get(&"a".to_string()), None);
    map.insert("a".to_string(), 1);
    map.insert("b".to_string(), 2);
    map.insert("a".to_string(), 3);
    assert_eq!(map.get(&"a".to_string()), Some(&3));
    assert_eq!(map.get(&"b".to_string()), Some(&2));
    assert!(!map.contains_key(&"c".to_string()));
    let copy = map.copy(|value| *value);
    map.insert("c".to_string(), 4);
    assert!(map.contains_key(&"c".to_string()));
    assert!(!copy.contains_key(&"c".to_string()));
    assert_eq!(copy.get(&"a".to_string()), Some(&3));
}
