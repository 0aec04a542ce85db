//! Sources are read by a small parser, and files live in a map from paths to texts.
use ginko::analysis::{Analysis, AnalysisResult};
use ginko::ast::{
    AnyDirective, Cell, DtsFile, Include, Memreserve, Node, NodeItem, NodeName, NodePayload,
    NumberRepr, Path, Primary, Property, PropertyPath, PropertyValue, Reference, ReferencedNode,
    WithToken,
};
use ginko::context::{AnalysisContext, ReferenceContext};
use ginko::data::{
    FileId, FileType, HasSource, HasSpan, IoError, ParserConfig, Position, Span, Token,
};
use ginko::diagnostics::Diagnostic;
use ginko::error_codes::{ErrorCode, Severity};
use ginko::keyed::KeyedMap;
use ginko::loader::{
    load_all_by, load_by, notify_by, set_include_paths_by, Candidate, DefaultIncludeLoader,
    IncludeLoader, IncludeLoaderGuard, IncludeLoaderNotifyAction, LoadOutcome, LoadedFile,
};
use ginko::parse::{ParseAction, ParseRun, ParsedFile};
use ginko::project::{AnalysisStatus, Project, ProjectFile};
use ginko::server::{
    document_symbol, document_symbols, goto_definition, hover, included_location,
    invalid_url_message, knows_start, report, Definition, ItemAtCursor, SymbolKind,
};
use ginko::tree::load_requests;
use std::collections::HashMap;
use std::sync::Arc;

// ---------------------------------------------------------------------------
// Reading sources

struct Parser {
    chars: Vec<char>,
    at: usize,
    line: u32,
    column: u32,
    source: FileId,
}

#[derive(Clone, Copy)]
struct Mark {
    at: usize,
    line: u32,
    column: u32,
}

type Parsed<T> = Result<T, Diagnostic>;

impl Parser {
    fn new(text: &str, source: FileId) -> Parser {
        Parser {
            chars: text.chars().collect(),
            at: 0,
            line: 0,
            column: 0,
            source,
        }
    }

    fn mark(&self) -> Mark {
        Mark {
            at: self.at,
            line: self.line,
            column: self.column,
        }
    }

    fn back_to(&mut self, mark: Mark) {
        self.at = mark.at;
        self.line = mark.line;
        self.column = mark.column;
    }

    fn position(&self) -> Position {
        Position::new(self.line, self.column)
    }

    fn peek(&self) -> Option<char> {
        self.chars.get(self.at).copied()
    }

    fn step(&mut self) {
        if self.chars[self.at] == '\n' {
            self.line += 1;
            self.column = 0;
        } else {
            self.column += 1;
        }
        self.at += 1;
    }

    fn looking_at(&self, text: &str) -> bool {
        text.chars()
            .enumerate()
            .all(|(i, c)| self.chars.get(self.at + i) == Some(&c))
    }

    fn blanks(&mut self) {
        loop {
            if self.looking_at("//") {
                while self.peek().is_some() && self.peek() != Some('\n') {
                    self.step();
                }
            } else if self.peek().map(|c| c.is_whitespace()) == Some(true) {
                self.step();
            } else {
                return;
            }
        }
    }

    fn token_from(&self, start: Position) -> Token {
        Token::new(start.to(self.position()), self.source)
    }

    /// Takes a text that comes next.
    fn take(&mut self, text: &str) -> Option<Token> {
        self.blanks();
        if !self.looking_at(text) {
            return None;
        }
        let start = self.position();
        for _ in text.chars() {
            self.step();
        }
        Some(self.token_from(start))
    }

    fn expect(&mut self, text: &str) -> Parsed<Token> {
        let here = self.position();
        match self.take(text) {
            Some(token) => Ok(token),
            None => Err(expected(here, self.source, text)),
        }
    }

    fn word(&mut self) -> Option<WithToken<String>> {
        self.word_with(",._+?#@-")
    }

    fn word_with(&mut self, others: &str) -> Option<WithToken<String>> {
        self.blanks();
        let start = self.position();
        let mut text = String::new();
        while let Some(c) = self.peek() {
            if c.is_alphanumeric() || others.contains(c) {
                text.push(c);
                self.step();
            } else {
                break;
            }
        }
        if text.is_empty() {
            None
        } else {
            Some(WithToken::new(text, self.token_from(start)))
        }
    }

    fn label(&mut self) -> Option<WithToken<String>> {
        let mark = self.mark();
        self.blanks();
        let start = self.position();
        if let Some(word) = self.word() {
            if self.peek() == Some(':') {
                self.step();
                return Some(WithToken::new(word.item().clone(), self.token_from(start)));
            }
        }
        self.back_to(mark);
        None
    }

    fn quoted(&mut self) -> Option<WithToken<String>> {
        self.blanks();
        if self.peek() != Some('"') {
            return None;
        }
        let start = self.position();
        self.step();
        let mut text = String::new();
        while self.peek() != Some('"') {
            text.push(self.peek().unwrap());
            self.step();
        }
        self.step();
        Some(WithToken::new(text, self.token_from(start)))
    }

    fn braced(&mut self) -> String {
        let mut text = String::new();
        while self.peek() != Some('}') {
            text.push(self.peek().unwrap());
            self.step();
        }
        self.step();
        text
    }

    fn reference(&mut self) -> Option<WithToken<Reference>> {
        self.blanks();
        let start = self.position();
        let reference = if self.take("&{").is_some() {
            Reference::Path(self.braced().into())
        } else if self.take("${").is_some() {
            Reference::PropertyPath(self.braced().as_str().into())
        } else if self.take("&").is_some() {
            Reference::Label(self.word_with("_").unwrap().item().clone())
        } else {
            return None;
        };
        Some(WithToken::new(reference, self.token_from(start)))
    }

    fn cell(&mut self) -> Option<Cell> {
        let _ = self.label();
        if let Some(reference) = self.reference() {
            return Some(Cell::Reference(reference));
        }
        let word = self.word()?;
        let text = word.item().clone();
        let (number, repr) = if let Some(digits) = text.strip_prefix("0x") {
            (u32::from_str_radix(digits, 16), NumberRepr::Hexadecimal)
        } else {
            (text.parse(), NumberRepr::Decimal)
        };
        Some(Cell::Number(
            WithToken::new(number.unwrap(), word.token),
            repr,
        ))
    }

    fn value(&mut self) -> Parsed<PropertyValue> {
        if let Some(text) = self.quoted() {
            return Ok(PropertyValue::String(text));
        }
        if let Some(reference) = self.reference() {
            return Ok(PropertyValue::Reference(reference));
        }
        if let Some(start) = self.take("/incbin/") {
            let open = self.expect("(")?;
            let file_name = self.quoted().unwrap();
            let end = self.expect(")")?;
            let inclusion = Include {
                include_token: start,
                file_name,
            };
            return Ok(PropertyValue::Incbin(open, inclusion, end));
        }
        let start = self.expect("<")?;
        let mut cells = vec![];
        loop {
            if let Some(end) = self.take(">") {
                return Ok(PropertyValue::Cells(start, cells, end));
            }
            cells.push(self.cell().unwrap());
        }
    }

    fn item(&mut self) -> Parsed<NodeItem> {
        let label = self.label();
        let name = match self.word() {
            Some(name) => name,
            None => return Err(expected(self.position(), self.source, "name")),
        };
        let span_start = label
            .as_ref()
            .map(|label| label.start())
            .unwrap_or(name.start());
        if self.take("=").is_some() {
            let mut values = vec![self.value()?];
            while self.take(",").is_some() {
                values.push(self.value()?);
            }
            let end = self.expect(";")?;
            return Ok(NodeItem::Property(Arc::new(Property {
                label,
                name,
                values,
                end,
            })));
        }
        if let Some(end) = self.take(";") {
            return Ok(NodeItem::Property(Arc::new(Property::empty(
                name, label, end,
            ))));
        }
        let payload = self.payload()?;
        Ok(NodeItem::Node(Arc::new(Node {
            label,
            name: name.into(),
            span: span_start.to(payload.end.end()),
            payload,
            omit_if_no_ref: None,
        })))
    }

    fn payload(&mut self) -> Parsed<NodePayload> {
        self.expect("{")?;
        let mut items = vec![];
        loop {
            if self.take("}").is_some() {
                let end = self.expect(";")?;
                return Ok(NodePayload { items, end });
            }
            if let Some(token) = self.take("/delete-node/") {
                let name = self.word().unwrap();
                self.expect(";")?;
                items.push(NodeItem::DeletedNode(token, name.into()));
            } else if let Some(token) = self.take("/delete-property/") {
                let name = self.word().unwrap();
                self.expect(";")?;
                items.push(NodeItem::DeletedProperty(token, name));
            } else {
                items.push(self.item()?);
            }
        }
    }

    fn number(&mut self) -> WithToken<u64> {
        let word = self.word().unwrap();
        let number = u64::from_str_radix(&word.item()[2..], 16).unwrap();
        WithToken::new(number, word.token)
    }

    fn primary(&mut self) -> Parsed<Primary> {
        if let Some(token) = self.take("/dts-v1/") {
            self.expect(";")?;
            return Ok(Primary::Directive(AnyDirective::DtsHeader(token)));
        }
        if let Some(token) = self.take("/plugin/") {
            self.expect(";")?;
            return Ok(Primary::Directive(AnyDirective::Plugin(token)));
        }
        if self.take("/memreserve/").is_some() {
            let address = self.number();
            let length = self.number();
            self.expect(";")?;
            return Ok(Primary::Directive(AnyDirective::Memreserve(
                Memreserve::new(address, length),
            )));
        }
        if let Some(include_token) = self.take("/include/") {
            let file_name = self.quoted().unwrap();
            return Ok(Primary::Directive(AnyDirective::Include(Include {
                include_token,
                file_name,
            })));
        }
        if let Some(token) = self.take("/delete-node/") {
            let reference = self.reference().unwrap();
            self.expect(";")?;
            return Ok(Primary::Directive(AnyDirective::DeletedNode(
                token, reference,
            )));
        }
        if let Some(token) = self.take("/omit-if-no-ref/") {
            let reference = self.reference().unwrap();
            self.expect(";")?;
            return Ok(Primary::Directive(AnyDirective::OmitIfNoRef(
                token, reference,
            )));
        }
        if let Some(token) = self.take("/") {
            let payload = self.payload()?;
            return Ok(Primary::Root(Arc::new(Node {
                label: None,
                name: WithToken::new(NodeName::simple("/"), token),
                span: token.start().to(payload.end.end()),
                payload,
                omit_if_no_ref: None,
            })));
        }
        let label = self.label();
        match self.reference() {
            Some(reference) => {
                let payload = self.payload()?;
                Ok(Primary::ReferencedNode(Arc::new(ReferencedNode {
                    label,
                    span: reference.start().to(payload.end.end()),
                    reference,
                    payload,
                })))
            }
            None => Err(expected(self.position(), self.source, "element")),
        }
    }

    fn file(mut self) -> Parsed<DtsFile> {
        let mut elements = vec![];
        loop {
            self.blanks();
            if self.peek().is_none() {
                return Ok(DtsFile {
                    elements,
                    source: self.source,
                });
            }
            elements.push(self.primary()?);
        }
    }
}

fn expected(at: Position, source: FileId, text: &str) -> Diagnostic {
    Diagnostic::new(
        at.as_span(),
        source,
        ErrorCode::Expected,
        &format!("Expected '{text}'"),
    )
}

// ---------------------------------------------------------------------------
// Sources and parts of them

#[derive(Clone)]
struct Code {
    chars: Vec<char>,
    from: usize,
    to: usize,
}

impl Code {
    fn new(text: &str) -> Code {
        let chars: Vec<char> = text.chars().collect();
        Code {
            from: 0,
            to: chars.len(),
            chars,
        }
    }

    fn with_config(text: &str, _config: ParserConfig) -> Code {
        Code::new(text)
    }

    fn text(&self) -> String {
        self.chars[self.from..self.to].iter().collect()
    }

    /// The part of this that is the given occurrence of a text, counted from one.
    fn s(&self, text: &str, occurrence: usize) -> Code {
        let wanted: Vec<char> = text.chars().collect();
        let mut left = occurrence;
        for at in self.from..=self.to - wanted.len() {
            if self.chars[at..at + wanted.len()] == wanted[..] {
                left -= 1;
                if left == 0 {
                    return Code {
                        chars: self.chars.clone(),
                        from: at,
                        to: at + wanted.len(),
                    };
                }
            }
        }
        panic!("{text} is not there")
    }

    fn s1(&self, text: &str) -> Code {
        self.s(text, 1)
    }

    fn position_at(&self, at: usize) -> Position {
        let mut line = 0;
        let mut column = 0;
        for c in &self.chars[..at] {
            if *c == '\n' {
                line += 1;
                column = 0;
            } else {
                column += 1;
            }
        }
        Position::new(line, column)
    }

    fn position(&self) -> Position {
        self.position_at(self.from)
    }

    fn end(&self) -> Position {
        self.position_at(self.to)
    }

    fn span(&self) -> Span {
        self.position().to(self.end())
    }

    fn source(&self) -> FileId {
        SOURCE
    }

    fn parse(&self) -> DtsFile {
        Parser::new(&self.text(), SOURCE).file().unwrap()
    }

    fn get_analyzed_file(&self) -> (Vec<Diagnostic>, AnalysisContext) {
        self.analyzed_as(FileType::DtSource)
    }

    fn analyzed_as(&self, file_type: FileType) -> (Vec<Diagnostic>, AnalysisContext) {
        let mut analysis = Analysis::new(None);
        let AnalysisResult { diagnostics } =
            analysis.analyze_file(&self.parse(), file_type, &Project::default(), &[]);
        (diagnostics, analysis.into_context())
    }
}

const SOURCE: FileId = 7;

fn unresolved(part: &Code) -> Diagnostic {
    Diagnostic::new(
        part.span(),
        SOURCE,
        ErrorCode::UnresolvedReference,
        "Reference cannot be resolved",
    )
}

fn assert_same_elements(found: Vec<Diagnostic>, wanted: Vec<Diagnostic>) {
    let mut left = found.clone();
    for diagnostic in &wanted {
        let at = left.iter().position(|other| other == diagnostic);
        assert!(at.is_some(), "{diagnostic:?} is missing in {found:?}");
        left.remove(at.unwrap());
    }
    assert!(left.is_empty(), "{left:?} is too much");
}

// ---------------------------------------------------------------------------
// Files in a map

struct World {
    texts: HashMap<String, String>,
    paths: Vec<String>,
    include_paths: DefaultIncludeLoader,
    reads: usize,
}

impl World {
    fn new() -> World {
        World {
            texts: HashMap::new(),
            paths: vec![],
            include_paths: DefaultIncludeLoader::default(),
            reads: 0,
        }
    }

    fn add_file(&mut self, path: &str, text: &str) -> Code {
        self.texts.insert(path.to_string(), text.to_string());
        Code::new(text)
    }

    fn id(&mut self, path: &str) -> FileId {
        if let Some(at) = self.paths.iter().position(|known| known == path) {
            return at as FileId;
        }
        self.paths.push(path.to_string());
        self.paths.len() as FileId - 1
    }

    fn canonical(&mut self, path: &str) -> Option<FileId> {
        if self.texts.contains_key(path) {
            Some(self.id(path))
        } else {
            None
        }
    }

    fn file_type(path: &str) -> FileType {
        if path.ends_with(".dts") {
            FileType::DtSource
        } else if path.ends_with(".dtsi") {
            FileType::DtSourceInclude
        } else if path.ends_with(".dtso") {
            FileType::DtSourceOverlay
        } else {
            FileType::Unknown
        }
    }

    fn load(&mut self, relative_to: FileId, name: &str) -> Result<FileId, IoError> {
        let mut tried = 0;
        loop {
            let directory = match self.include_paths.candidate(tried) {
                Candidate::Within(directory) => directory.to_string(),
                Candidate::Beside => {
                    let source = self.paths[relative_to as usize].clone();
                    source[..source.rfind('/').unwrap()].to_string()
                }
            };
            let path = if name.starts_with('/') {
                name.to_string()
            } else {
                format!("{directory}/{name}")
            };
            let outcome = self.canonical(&path).ok_or(IoError {
                message: "No such file or directory (os error 2)".to_string(),
            });
            if let Some(outcome) = self.include_paths.settle(tried, outcome) {
                return outcome;
            }
            tried += 1;
        }
    }

    fn search(&mut self, relative_to: FileId, name: &str) -> LoadOutcome {
        self.load(relative_to, name).map(|path| LoadedFile {
            path,
            canonical: Some(path),
        })
    }

    fn add_to(&mut self, project: &mut Project, path: &str) -> Result<(), IoError> {
        match self.texts.get(path).cloned() {
            Some(text) => {
                self.add_with_text(project, path, &text);
                Ok(())
            }
            None => Err(IoError {
                message: "No such file or directory (os error 2)".to_string(),
            }),
        }
    }

    fn add_with_text(&mut self, project: &mut Project, path: &str, text: &str) {
        let id = self.canonical(path).expect("File must be present");
        let mut run = ParseRun::start(id, text.to_string(), World::file_type(path));
        loop {
            match run.action() {
                ParseAction::Parse(source, text) => {
                    let result =
                        Parser::new(text, source)
                            .file()
                            .map(|file| ParsedFile {
                                file,
                                diagnostics: vec![],
                            });
                    run.parsed(project, result);
                }
                ParseAction::Find(source, name) => {
                    let name = name.to_string();
                    let outcome = self.search(source, &name);
                    run.found(project, outcome);
                }
                ParseAction::Read(file) => {
                    self.reads += 1;
                    let path = self.paths[file as usize].clone();
                    let text = self.texts[&path].clone();
                    run.read(project, Ok((text, World::file_type(&path))));
                }
                ParseAction::Done => break,
            }
        }
        let mut loads = vec![];
        for planned in project.analysis_plan(id) {
            let (source, requests) = project.requests_of(planned.file).unwrap();
            let mut outcomes = vec![];
            for name in requests {
                outcomes.push(self.search(source, &name));
            }
            loads.push(outcomes);
        }
        project.analyze_tree_for(id, &loads);
    }

    fn diagnostics(&mut self, project: &Project, path: &str) -> Vec<Diagnostic> {
        let canonical = self.canonical(path);
        project
            .get_diagnostics(canonical)
            .into_iter()
            .cloned()
            .collect()
    }
}

fn assert_no_diagnostics(project: &Project) {
    assert_eq!(project.all_diagnostics(), Vec::<&Diagnostic>::new());
}

fn inside(span: Span, position: Position) -> bool {
    let key = |position: Position| (position.line(), position.character());
    key(span.start()) <= key(position) && key(position) < key(span.end())
}

fn item_in_values<'a>(
    values: &'a [PropertyValue],
    node: &'a Node,
    position: Position,
) -> Option<ItemAtCursor<'a>> {
    for value in values {
        let mut references = vec![];
        match value {
            PropertyValue::Reference(reference) => references.push(reference),
            PropertyValue::Cells(_, cells, _) => {
                for cell in cells {
                    if let Cell::Reference(reference) = cell {
                        references.push(reference);
                    }
                }
            }
            _ => {}
        }
        for reference in references {
            if inside(reference.span(), position) {
                return Some(ItemAtCursor::Reference(
                    reference.item(),
                    ReferenceContext::Node(node),
                ));
            }
        }
    }
    None
}

fn item_in_node(node: &Node, position: Position) -> Option<ItemAtCursor<'_>> {
    if let Some(label) = &node.label {
        if inside(label.span(), position) {
            return Some(ItemAtCursor::Label(label));
        }
    }
    for item in &node.payload.items {
        let found = match item {
            NodeItem::Property(property) => item_in_values(&property.values, node, position),
            NodeItem::Node(node) => item_in_node(node, position),
            _ => None,
        };
        if found.is_some() {
            return found;
        }
    }
    None
}

fn item_at_cursor(file: &DtsFile, position: Position) -> Option<ItemAtCursor<'_>> {
    for primary in &file.elements {
        match primary {
            Primary::Root(node) => {
                let found = item_in_node(node, position);
                if found.is_some() {
                    return found;
                }
            }
            Primary::ReferencedNode(node) => {
                if inside(node.reference.span(), position) {
                    return Some(ItemAtCursor::Reference(
                        node.reference.item(),
                        ReferenceContext::Root,
                    ));
                }
            }
            Primary::Directive(AnyDirective::Include(inclusion)) => {
                if inside(inclusion.span(), position) {
                    return Some(ItemAtCursor::Include(inclusion));
                }
            }
            _ => {}
        }
    }
    None
}

fn find_at_pos(
    project: &Project,
    canonical: Option<FileId>,
    position: Position,
) -> Option<ItemAtCursor<'_>> {
    item_at_cursor(project.get_root(canonical)?, position)
}

// ---------------------------------------------------------------------------
// The analysis of one file

#[test]
fn test_duplicate_v1_header() {
    let code = Code::with_config(
        "\
/dts-v1/;

/{
};

/dts-v1/;
",
        ParserConfig {
            unlimited_property_length: false,
        },
    );
    let (diagnostics, _) = code.get_analyzed_file();
    assert_same_elements(
        diagnostics,
        vec![Diagnostic::new(
            Position::new(5, 0).to(Position::new(5, 8)),
            code.source(),
            ErrorCode::DuplicateDirective,
            "Duplicate dts-v1 version header",
        )],
    )
}

#[test]
fn test_misplaced_header() {
    let code = Code::with_config(
        "\
/{
};

/memreserve/ 0x10000000 0x4000;

/dts-v1/;
",
        ParserConfig {
            unlimited_property_length: false,
        },
    );
    let (diagnostics, _) = code.get_analyzed_file();
    assert_same_elements(
        diagnostics,
        vec![Diagnostic::new(
            Position::new(5, 0).to(Position::new(5, 8)),
            code.source(),
            ErrorCode::MisplacedDtsHeader,
            "dts-v1 header must be placed on top of the file",
        )],
    )
}

#[test]
fn test_resolve_node_names() {
    let code = Code::new(
        "\
/dts-v1/;

/{
    node1: some_node {
        ref-to-node2 = &node2;
        ref-to-node3 = <&node3>;
    };
    node2: some_other_node {
        ref-to-node1 = &node1;
        ref-to-node1-path = &{/some_node};
        ref-to-node4-path = &{/some_other_node/some_node};
        ref-to-node3-path = &{/node3};
        dot-ref-to-node4-path = &{./some_node};
        dot-ref-to-bad-path = &{./some_node/missing};
        ref-to-label = &{node1};
        node4: some_node {
            self-reference = &node4;
        };
    };
};",
    );
    let (diagnostics, context) = code.get_analyzed_file();
    assert_same_elements(
        diagnostics,
        vec![
            Diagnostic::new(
                code.s1("&node3").span(),
                code.source(),
                ErrorCode::UnresolvedReference,
                "Reference cannot be resolved",
            ),
            Diagnostic::new(
                code.s1("&{/node3}").span(),
                code.source(),
                ErrorCode::UnresolvedReference,
                "Reference cannot be resolved",
            ),
            Diagnostic::new(
                code.s1("&{./some_node/missing}").span(),
                code.source(),
                ErrorCode::UnresolvedReference,
                "Reference cannot be resolved",
            ),
        ],
    );
    assert_eq!(
        context
            .get_node_by_label("node1")
            .expect("Reference should be set")
            .name
            .span(),
        code.s1("some_node").span()
    );
    assert_eq!(
        context
            .get_node_by_label("node2")
            .expect("Reference should be set")
            .name
            .span(),
        code.s1("some_other_node").span(),
    );
    assert_eq!(
        context
            .get_node_by_label("node4")
            .expect("Reference should be set")
            .name
            .span(),
        code.s1("node4: some_node").s1("some_node").span()
    );
    assert!(context.get_node_by_label("node3").is_none())
}

#[test]
fn test_resolve_property_values() {
    let code = Code::new(
        "\
/dts-v1/;

/{
    node1: some_node {
        v0 = <0x00>;
        ref-to-node2 = ${/some_other_node/v1};
        bad-ref-to-node2 = ${/some_other_node/v1bad};
        ref-to-node3 = <${/node3/bad1}>;
    };
    node2: some_other_node {
        v1 = <0x10>;
        ref-to-node1-path = ${/some_node/v0};
        ref-to-node4-path = ${/some_other_node/some_node/v4};
        bad-ref-to-node4-path = ${/some_other_node/some_node/v4bad};
        ref-to-node3-path = ${/node3/bad2};
        dot-ref-to-node4-path = ${./some_node/v4};
        dot-ref-to-bad-path = ${./some_node/missing};
        dot-ref-to-bad-sub-path = ${./some_node/sub/v4};
        node4: some_node {
            self-reference = &node4;
            v4 = <0x20>;
        };
    };
};",
    );
    let (diagnostics, context) = code.get_analyzed_file();
    assert_same_elements(
        diagnostics,
        vec![
            unresolved(&code.s1("${/node3/bad1}")),
            unresolved(&code.s1("${/some_other_node/v1bad}")),
            unresolved(&code.s1("${/node3/bad2}")),
            unresolved(&code.s1("${/some_other_node/some_node/v4bad}")),
            unresolved(&code.s1("${./some_node/missing}")),
            unresolved(&code.s1("${./some_node/sub/v4}")),
        ],
    );
    assert_eq!(
        context
            .get_node_by_label("node1")
            .expect("Reference should be set")
            .name
            .span(),
        code.s1("some_node").span()
    );
    assert_eq!(
        context
            .get_node_by_label("node2")
            .expect("Reference should be set")
            .name
            .span(),
        code.s("some_other_node", 3).span(),
    );
    assert_eq!(
        context
            .get_node_by_label("node4")
            .expect("Reference should be set")
            .name
            .span(),
        code.s1("node4: some_node").s1("some_node").span()
    );
    assert!(context.get_node_by_label("node3").is_none())
}

#[test]
fn test_resolve_node_paths() {
    let code = Code::new(
        "\
/dts-v1/;

/{
    node1: some_node {
        ref-to-node2 = &node2;
    };
    node2: some_other_node {
        ref-to-node1 = &node1;
        node4: some_node {
            self-reference = &node4;
        };
    };
};",
    );
    let (diag, context) = code.get_analyzed_file();
    assert!(diag.is_empty());
    assert_eq!(
        context
            .get_node_by_path(
                &Path::new_absolute(vec!["some_node".into()]),
                &ReferenceContext::Root
            )
            .expect("Reference should be set")
            .name
            .span(),
        code.s1("some_node").span(),
    );
    assert_eq!(
        context
            .get_node_by_path(
                &Path::new_dot_relative(vec!["some_other_node".into(), "some_node".into()]),
                &ReferenceContext::Root
            )
            .expect("Reference should be set")
            .name
            .span(),
        code.s("some_node", 2).span(),
    );
    assert_eq!(
        context
            .get_node_by_path(
                &Path::new_absolute(vec!["some_other_node".into()]),
                &ReferenceContext::Root
            )
            .expect("Reference should be set")
            .name
            .span(),
        code.s1("some_other_node").span(),
    );
    assert_eq!(
        context
            .get_node_by_path(
                &Path::new_absolute(vec!["some_other_node".into(), "some_node".into(),]),
                &ReferenceContext::Root
            )
            .expect("Reference should be set")
            .name
            .span(),
        code.s1("node4: some_node").s1("some_node").span()
    );
    assert!(context.get_node_by_label("node3").is_none())
}

#[test]
fn test_does_not_accept_non_dtsv1_sources() {
    let code = Code::new("/ {};");
    let (diagnostics, _) = code.get_analyzed_file();
    assert_eq!(
        diagnostics,
        vec![Diagnostic::new(
            Position::zero().as_span(),
            code.source(),
            ErrorCode::NonDtsV1,
            "Files without the '/dts-v1/' Header are not supported"
        )]
    )
}

#[test]
fn referenced_node_in_same_file() {
    let code = Code::new(
        "\
/dts-v1/;

/ {
    some_node: node {};
};

&some_node {};

&some_other_node {};

&{/node} {};

&{/some_other_node} {};

",
    );
    let (diagnostics, _) = code.get_analyzed_file();
    assert_same_elements(
        diagnostics,
        vec![
            Diagnostic::new(
                code.s1("&some_other_node").span(),
                code.source(),
                ErrorCode::UnresolvedReference,
                "Reference cannot be resolved",
            ),
            Diagnostic::new(
                code.s1("&{/some_other_node}").span(),
                code.source(),
                ErrorCode::UnresolvedReference,
                "Reference cannot be resolved",
            ),
        ],
    )
}

#[test]
fn labeled_referenced() {
    let code = Code::new(
        "\
/dts-v1/;

/ {
    some_node: node {
            child-2 {
            };
    };
};

labeled_referenced: &some_node {
    child-1 {
    };
};
",
    );
    let (diagnostics, context) = code.get_analyzed_file();
    assert_same_elements(diagnostics, vec![]);

    let node = context
        .get_node_by_path(
            &Path::new_label_relative("labeled_referenced".into(), vec!["child-1".into()]),
            &ReferenceContext::Root,
        )
        .unwrap();
    assert_eq!(
        context.get_node_position(&node).0,
        code.s1("child-1").span()
    );
}

#[test]
fn test_get_position() {
    let code = Code::new(
        "\
/dts-v1/;

/ {
    some_label: node {
        relative = ${./another/prop};
        second_label: another {
            prop = <0>;
        };
    };
};

labeled_referenced: &some_label {
    more = <0>;
};
",
    );
    let (diagnostics, analysis) = code.get_analyzed_file();
    assert_same_elements(diagnostics, vec![]);
    assert_eq!(
        analysis.get_position(
            &Reference::Label("labeled_referenced".to_string()),
            &ReferenceContext::Root
        ),
        Some((code.s1("labeled_referenced:").span(), code.source()))
    );
    assert_eq!(
        analysis.get_position(
            &Reference::Label("some_label".to_string()),
            &ReferenceContext::Root
        ),
        Some((code.s1("node").span(), code.source()))
    );
    assert_eq!(
        analysis.get_position(
            &Reference::Path(Path::new_absolute(vec!["node".into(), "another".into()])),
            &ReferenceContext::Root
        ),
        Some((code.s("another", 2).span(), code.source()))
    );
    assert_eq!(
        analysis.get_position(
            &Reference::Path(Path::new_label_relative(
                "some_label".into(),
                vec!["another".into()]
            )),
            &ReferenceContext::Root
        ),
        Some((code.s("another", 2).span(), code.source()))
    );
    assert_eq!(
        analysis.get_position(
            &Reference::PropertyPath(PropertyPath::new(
                Path::new_label_relative("some_label".into(), vec!["another".into()]),
                "prop".into(),
            )),
            &ReferenceContext::Root
        ),
        Some((code.s("prop", 2).span(), code.source()))
    );
}

#[test]
fn test_get_referred() {
    let code = Code::new(
        "\
/dts-v1/;

/ {
    some_label: node@00001111 {
        relative = ${./another/prop};
        second_label: another {
            prop = <0>;
        };
    };
};

labeled_referenced: &some_label {
    more = <0>;
};
",
    );
    let (diagnostics, analysis) = code.get_analyzed_file();
    assert_same_elements(diagnostics, vec![]);
    assert_eq!(
        analysis.get_referred(
            &Reference::Label("labeled_referenced".to_string()),
            &ReferenceContext::Root
        ),
        Some("labeled_referenced".into())
    );
    assert_eq!(
        analysis.get_referred(
            &Reference::Label("some_label".to_string()),
            &ReferenceContext::Root
        ),
        Some("node@00001111".into())
    );
    assert_eq!(
        analysis.get_referred(
            &Reference::Path(Path::new_absolute(vec![
                "node@00001111".into(),
                "another".into()
            ])),
            &ReferenceContext::Root
        ),
        Some("another".into())
    );
    // A node without its unit address does not resolve in a path:
    assert_eq!(
        analysis.get_referred(
            &Reference::Path(Path::new_absolute(vec!["node".into(), "another".into()])),
            &ReferenceContext::Root
        ),
        None
    );
    assert_eq!(
        analysis.get_referred(
            &Reference::Path(Path::new_label_relative(
                "some_label".into(),
                vec!["another".into()]
            )),
            &ReferenceContext::Root
        ),
        Some("another".into())
    );
    assert_eq!(
        analysis.get_referred(
            &Reference::PropertyPath(PropertyPath::new(
                Path::new_label_relative("some_label".into(), vec!["another".into()]),
                "prop".into(),
            )),
            &ReferenceContext::Root
        ),
        Some("<0>".into())
    );
}

#[test]
fn schema_diagnostics() {
    let code = Code::new(
        r#"
/dts-v1/;

/ {
    compatible = <0x0>;
    model = "foo", "bar";
    phandle = "wat";

    good {
        compatible = "aaa,bbb", "ccc,ddd";
        model = "bla";
        labeled: phandle = <also_labeled: 1>;
    };

    ignore {
        model = "foo", "bar";
    };
};
"#,
    );
    let (diagnostics, _) = code.get_analyzed_file();
    assert_same_elements(
        diagnostics,
        vec![
            Diagnostic::new(
                code.s1("<0x0>").span(),
                code.source(),
                ErrorCode::NonStringInCompatible,
                "compatible property should only contain strings",
            ),
            Diagnostic::new(
                code.s1("model = \"foo\", \"bar\";").span(),
                code.source(),
                ErrorCode::ExpectedString,
                "property should contain a single string",
            ),
            Diagnostic::new(
                code.s1("phandle = \"wat\";").span(),
                code.source(),
                ErrorCode::ExpectedU32,
                "property should contain a single number",
            ),
        ],
    )
}

// ---------------------------------------------------------------------------
// Projects

#[test]
fn file_with_includes() {
    let mut project = Project::default();
    let mut world = World::new();
    let path1 = "/dir/tests-include.dtsi";
    world.add_file(path1, "");
    world.add_to(&mut project, path1).expect("Cannot add file");

    let file2 = "/dir/tests-file.dts";
    world.add_file(
        file2,
        &format!(
            r#"
/dts-v1/;

/include/ "{}"
"#,
            path1
        ),
    );
    world.add_to(&mut project, file2).expect("Cannot add file");
    let id1 = world.canonical(path1);
    let id2 = world.canonical(file2);
    assert!(project.get_file(id1).is_some());
    assert!(project.get_file(id2).is_some());
    assert_eq!(project.get_diagnostics(id1).first(), None);
    assert_eq!(project.get_diagnostics(id2).first(), None);
    assert!(project.get_root(id1).is_some());
    assert!(project.get_analysis(id1.unwrap()).is_some());
    assert!(project.get_analysis(id2.unwrap()).is_some());
}

#[test]
fn cross_file_references() {
    let mut project = Project::default();
    let mut world = World::new();
    let file1 = "/dir/tests-include.dtsi";
    let code1 = world.add_file(
        file1,
        r#"
/ {
    some_node: node_a {
        // ...
    };
};
"#,
    );
    let file2 = "/dir/tests-file.dts";
    let code2 = world.add_file(
        file2,
        &format!(
            r#"
/dts-v1/;

/include/ "{}"

&some_node {{
}};

&{{/node_a}} {{
}};
"#,
            file1
        ),
    );

    world
        .add_to(&mut project, file2)
        .expect("Unexpected IO error");

    assert_no_diagnostics(&project);
    let id1 = world.canonical(file1).expect("File does not exist");
    let id2 = world.canonical(file2).expect("File does not exist");

    let substr = code2.s1("&some_node");
    let item = find_at_pos(&project, Some(id2), substr.span().start()).expect("Found no item");
    let ItemAtCursor::Reference(reference, _) = item else {
        panic!("Found non-node at cursor")
    };
    assert_eq!(reference, &Reference::Label("some_node".to_owned()));
    match project.get_node_position(id2, reference, &ReferenceContext::Root) {
        Some((span, path)) => {
            assert_eq!(span, code1.s1("node_a").span());
            assert_eq!(path, id1);
        }
        None => panic!("References does not reference nodes"),
    }

    let substr = code2.s1("&{/node_a}");
    let item = find_at_pos(&project, Some(id2), substr.span().start()).expect("Found no item");
    let ItemAtCursor::Reference(reference, _) = item else {
        panic!("Found non-node at cursor")
    };
    assert_eq!(reference, &Reference::Path("/node_a".into()));
    match project.get_node_position(id2, reference, &ReferenceContext::Root) {
        Some((span, path)) => {
            assert_eq!(span, code1.s1("node_a").span());
            assert_eq!(path, id1);
        }
        None => panic!("References does not reference nodes"),
    }
}

#[test]
fn cyclic_import_error() {
    let mut world = World::new();
    let path1 = "/dir/test.dts";
    let path2 = "/dir/tests-include.dtsi";
    world.add_file(path1, &format!(r#"/dts-v1/; /include/ "{}""#, path2));
    world.add_file(path2, &format!(r#"/include/ "{}""#, path1));

    let mut project = Project::default();
    world
        .add_to(&mut project, path1)
        .expect("Cannot add file to project");

    let diag = project.all_diagnostics();
    // There is one error, in one of the files that are in the circle.
    assert_eq!(diag.len(), 1);
    assert_eq!(*diag[0].kind(), ErrorCode::CyclicDependencyError);
}

#[test]
fn file_with_multiple_includes() {
    let mut project = Project::default();
    let mut world = World::new();

    let file1 = "/dir/test1.dtsi";
    world.add_file(file1, "");
    world.add_to(&mut project, file1).expect("Cannot add file");
    let file2 = "/dir/test2.dtsi";
    world.add_file(file2, "");
    world.add_to(&mut project, file2).expect("Cannot add file");
    let file3 = "/dir/test.dts";
    world.add_file(
        file3,
        &format!(
            r#"
/dts-v1/;

/include/ "{}"
/include/ "{}"
"#,
            file1, file2
        ),
    );

    world
        .add_to(&mut project, file3)
        .expect("Unexpected IO error");
    assert_no_diagnostics(&project);
}

#[test]
fn file_with_nested_includes() {
    let mut project = Project::default();
    let mut world = World::new();

    let file1 = "/dir/tests-include1.dtsi";
    world.add_file(file1, "");
    let file2 = "/dir/tests-include2.dtsi";
    world.add_file(file2, format!(r#"/include/ "{}""#, file1).as_str());
    let file3 = "/dir/test.dts";
    world.add_file(
        file3,
        &format!(
            r#"
/dts-v1/;

/include/ "{}"
"#,
            file2
        ),
    );

    world
        .add_to(&mut project, file3)
        .expect("Unexpected IO error");

    assert_no_diagnostics(&project);

    assert!(project.get_file(world.canonical(file1)).is_some());
    assert!(project.get_file(world.canonical(file2)).is_some());
    assert!(project.get_file(world.canonical(file3)).is_some());
}

#[test]
fn bad_path_in_include_and_incbin() {
    let mut project = Project::default();
    let mut world = World::new();

    let file = "/dir/test.dts";
    let code = world.add_file(
        file,
        r#"
/dts-v1/;

/include/ "/missing_file_1"

/ {
    prop = /incbin/( "/missing_file_2" );
};
"#,
    );
    world
        .add_to(&mut project, file)
        .expect("Cannot add file to project");

    assert!(project.get_file(world.canonical(file)).is_some());
    let diagnostics = world.diagnostics(&project, file);
    assert_eq!(diagnostics.len(), 2);
    assert_eq!(*diagnostics[0].kind(), ErrorCode::IOError);
    assert_eq!(
        diagnostics[0].span(),
        code.s1("/include/ \"/missing_file_1\"").span()
    );
    assert_eq!(*diagnostics[1].kind(), ErrorCode::IOError);
    assert_eq!(
        diagnostics[1].span(),
        code.s1("/incbin/( \"/missing_file_2\" )").span()
    );
    assert_eq!(
        diagnostics[1].message,
        "No such file or directory (os error 2)"
    );
}

#[test]
fn error_in_included_file_add_include_before_dts() {
    let mut project = Project::default();
    let mut world = World::new();

    let file1 = "/dir/error.dtsi";
    let code1 = world.add_file(file1, "/ {}"); // missing semicolon
    let file2 = "/dir/test.dts";
    let code2 = world.add_file(
        file2,
        &format!(
            r#"
/dts-v1/;

/include/ "{}"
"#,
            file1
        ),
    );
    world
        .add_to(&mut project, file2)
        .expect("Cannot add file to project");

    let id1 = world.canonical(file1).expect("Cannot canonicalize");
    let id2 = world.canonical(file2).expect("Cannot canonicalize");
    assert!(project.get_file(Some(id1)).is_some());
    assert!(project.get_file(Some(id2)).is_some());
    assert_eq!(
        world.diagnostics(&project, file1),
        vec![expected(code1.s1("}").end(), id1, ";")]
    );
    assert_eq!(
        world.diagnostics(&project, file2),
        vec![Diagnostic::new(
            code2
                .s1(format!(r#"/include/ "{}""#, file1).as_str())
                .span(),
            id2,
            ErrorCode::ErrorsInInclude,
            "Included file contains errors"
        )]
    );
}

#[test]
fn file_with_include_paths_includes() {
    let mut world = World::new();
    let file1 = "/includes/tests-include1.dtsi";
    world.add_file(file1, "");
    let file2 = "/more-includes/tests-include2.dtsi";
    world.add_file(file2, "");

    let file3 = "/dir/test.dts";
    world.add_file(
        file3,
        r#"
/dts-v1/;

/include/ "tests-include1.dtsi"
/include/ "tests-include2.dtsi"
"#,
    );

    let mut project = Project::default();
    world
        .include_paths
        .set_include_paths(vec!["/includes".to_string(), "/more-includes".to_string()]);

    world
        .add_to(&mut project, file3)
        .expect("Unexpected IO error");

    assert_no_diagnostics(&project);

    assert!(project.get_file(world.canonical(file1)).is_some());
    assert!(project.get_file(world.canonical(file2)).is_some());
    assert!(project.get_file(world.canonical(file3)).is_some());
}

#[test]
fn file_with_dot_relative_references() {
    let mut world = World::new();
    let file = "/dir/test.dts";
    let code = world.add_file(
        file,
        r#"
/dts-v1/;

/ {
    some_label: node {
        relative = ${./another/nested/prop};
        second_label: another {
            nested {
                prop = <0>;
            };
        };
    };
};
"#,
    );

    let mut project = Project::default();
    world
        .add_to(&mut project, file)
        .expect("Unexpected IO error");

    assert_no_diagnostics(&project);

    let id = world.canonical(file).expect("File does not exist");
    assert!(project.get_file(Some(id)).is_some());

    let item = find_at_pos(&project, Some(id), code.s1("nested").position()).unwrap();

    let ItemAtCursor::Reference(reference, ref_ctx) = item else {
        panic!("Found non-node at cursor")
    };

    let ReferenceContext::Node(_) = &ref_ctx else {
        panic!("Reference has no context")
    };

    assert_eq!(
        reference,
        &Reference::PropertyPath(PropertyPath::new(
            Path::new_dot_relative(vec!["another".into(), "nested".into()]),
            "prop".into()
        ))
    );
    match project.get_node_position(id, reference, &ref_ctx) {
        Some((span, path)) => {
            assert_eq!(span, code.s("prop", 2).span());
            assert_eq!(path, id);
        }
        None => panic!("References does not reference nodes"),
    }
}

// ---------------------------------------------------------------------------
// More on the analysis of one file

#[test]
fn parts_of_a_tree_report_neither_references_nor_a_header() {
    let code = Code::new("/ { a = &missing; b = ${./missing/x}; }; &gone {}; /delete-node/ &gone2;");
    for file_type in [
        FileType::DtSourceInclude,
        FileType::DtSourceOverlay,
        FileType::Unknown,
    ] {
        assert_same_elements(code.analyzed_as(file_type).0, vec![]);
    }
    let (diagnostics, _) = code.get_analyzed_file();
    assert_eq!(
        diagnostics,
        vec![
            unresolved(&code.s1("${./missing/x}")),
            unresolved(&code.s1("&gone")),
            unresolved(&code.s1("&gone2")),
            Diagnostic::new(
                Position::zero().as_span(),
                SOURCE,
                ErrorCode::NonDtsV1,
                "Files without the '/dts-v1/' Header are not supported"
            ),
            unresolved(&code.s1("&missing")),
        ]
    );
}

#[test]
fn plugins_report_no_references_from_the_directive_on() {
    let code = Code::new("/dts-v1/; &early {}; /plugin/; &late {}; / { a = &later; };");
    let (diagnostics, _) = code.get_analyzed_file();
    assert_eq!(diagnostics, vec![unresolved(&code.s1("&early"))]);
}

#[test]
fn header_behind_an_inclusion_is_in_place() {
    let code = Code::new("/delete-node/ &{/}; /dts-v1/; /omit-if-no-ref/ &a; /dts-v1/;");
    let (diagnostics, _) = code.get_analyzed_file();
    assert_eq!(
        diagnostics,
        vec![
            unresolved(&code.s1("&{/}")),
            Diagnostic::new(
                code.s("/dts-v1/", 2).span(),
                SOURCE,
                ErrorCode::DuplicateDirective,
                "Duplicate dts-v1 version header"
            )
        ]
    );
    let code = Code::new("/omit-if-no-ref/ &a; /dts-v1/;");
    let (diagnostics, _) = code.get_analyzed_file();
    assert_eq!(*diagnostics[0].kind(), ErrorCode::MisplacedDtsHeader);
}

#[test]
fn the_last_definition_of_a_label_counts() {
    let code = Code::new("/dts-v1/; / { l: a { }; l: b { }; p: c = <1>; q = &l, &p; };");
    let (diagnostics, context) = code.get_analyzed_file();
    assert_same_elements(diagnostics, vec![]);
    assert_eq!(
        context.get_node_by_label("l").unwrap().name.span(),
        code.s1("b").span()
    );
    assert!(context.get_node_by_label("p").is_none());
    assert_eq!(
        context.get_position(&Reference::Label("p".to_string()), &ReferenceContext::Root),
        None
    );
    assert_eq!(
        context.get_referred(&Reference::Label("p".to_string()), &ReferenceContext::Root),
        None
    );
}

#[test]
fn labels_resolve_wherever_they_are_written() {
    let code = Code::new("/dts-v1/; / { a = &deep, &given, &prop; }; given: &{/} { x { deep: y { prop: z; }; }; };");
    let (diagnostics, _) = code.get_analyzed_file();
    assert_same_elements(diagnostics, vec![]);
}

#[test]
fn search_passes_over_missing_names_and_goes_into_the_last_child() {
    let code = Code::new(
        "/dts-v1/; / {
    over = &{./missing/some_node};
    into = &{./twice/second}, &{./twice/first};
    some_node { };
    twice { first { }; };
    twice { second { }; };
};",
    );
    let (diagnostics, context) = code.get_analyzed_file();
    assert_eq!(
        diagnostics,
        vec![unresolved(&code.s1("&{./twice/first}"))]
    );
    let found = context
        .get_node_by_path(
            &Path::new_dot_relative(vec!["twice".into()]),
            &ReferenceContext::Root,
        )
        .unwrap();
    assert_eq!(found.name.span(), code.s("twice", 3).span());
    let noted = context
        .get_node_by_path(
            &Path::new_absolute(vec!["twice".into()]),
            &ReferenceContext::Root,
        )
        .unwrap();
    assert_eq!(noted.name.span(), code.s("twice", 4).span());
    assert!(context
        .get_node_by_path(&Path::new_dot_relative(vec![]), &ReferenceContext::Root)
        .is_none());
}

#[test]
fn label_relative_paths() {
    let code = Code::new(
        "/dts-v1/; / { l: a { b { p = <2>; }; }; x = &{l/b}, ${l/b/p}, &{l/c}, ${l/b/q}, ${l/c/p}; pl: z; y = &{pl/b}; };
r: &l { d { }; };",
    );
    let (diagnostics, context) = code.get_analyzed_file();
    assert_eq!(
        diagnostics,
        vec![
            unresolved(&code.s1("&{l/c}")),
            unresolved(&code.s1("${l/b/q}")),
            unresolved(&code.s1("${l/c/p}")),
            unresolved(&code.s1("&{pl/b}")),
        ]
    );
    let root = ReferenceContext::Root;
    assert!(context.get_node_by_path(&"l".into(), &root).is_some());
    assert!(context.get_node_by_path(&"r".into(), &root).is_none());
    assert!(context.get_node_by_path(&"r/d".into(), &root).is_some());
    assert!(context.get_node_by_path(&"pl".into(), &root).is_none());
    assert!(context.get_node_by_path(&"none".into(), &root).is_none());
    assert!(context.get_node_by_path(&"/a/d".into(), &root).is_some());
    assert!(context.get_node_by_path(&"/d".into(), &root).is_none());
}

#[test]
fn nodes_of_an_unknown_reference_stand_at_the_root() {
    let code = Code::new("/dts-v1/; / { }; &unknown { model = <1>; d { }; };");
    let (diagnostics, context) = code.get_analyzed_file();
    assert_eq!(diagnostics.len(), 2);
    assert_eq!(diagnostics[0], unresolved(&code.s1("&unknown")));
    assert_eq!(*diagnostics[1].kind(), ErrorCode::ExpectedString);
    assert!(context
        .get_node_by_path(&"/d".into(), &ReferenceContext::Root)
        .is_some());
}

#[test]
fn files_are_requested_in_the_order_in_which_they_are_named() {
    let code = Code::new(
        r#"/include/ "a" / { p = /incbin/("b"), /incbin/("c"); n { q = /incbin/("d"); }; r = /incbin/("e"); };
/include/ "f" &x { s = /incbin/("g"); };"#,
    );
    let file = code.parse();
    assert_eq!(load_requests(&file), vec!["a", "b", "c", "d", "e", "f", "g"]);
    let failed = |name: &str| -> LoadOutcome {
        Err(IoError {
            message: format!("no {name}"),
        })
    };
    let loads: Vec<LoadOutcome> = load_requests(&file).iter().map(|name| failed(name)).collect();
    let mut analysis = Analysis::new(None);
    let result = analysis.analyze_file(
        &file,
        FileType::DtSourceInclude,
        &Project::default(),
        &loads,
    );
    let messages: Vec<&str> = result
        .diagnostics
        .iter()
        .map(|diagnostic| diagnostic.message.as_str())
        .collect();
    assert_eq!(
        messages,
        vec!["no a", "no b", "no c", "no d", "no e", "no f", "no g"]
    );
    assert_eq!(
        result.diagnostics[1].span(),
        code.s1("/incbin/(\"b\")").span()
    );
}

#[test]
fn a_file_that_includes_itself_is_reported() {
    let code = Code::new(r#"/dts-v1/; /include/ "self""#);
    let loads = vec![Ok(LoadedFile {
        path: SOURCE,
        canonical: None,
    })];
    let mut analysis = Analysis::new(None);
    let result = analysis.analyze_file(
        &code.parse(),
        FileType::DtSource,
        &Project::default(),
        &loads,
    );
    assert_eq!(
        result.diagnostics,
        vec![Diagnostic::new(
            code.s1(r#"/include/ "self""#).span(),
            SOURCE,
            ErrorCode::CyclicDependencyError,
            "Cyclic dependency between files"
        )]
    );
}

#[test]
fn whether_the_start_of_a_path_is_known() {
    let (_, context) = Code::new("/dts-v1/;").get_analyzed_file();
    let reference = Reference::Path("./a".into());
    assert!(!context.knows_start(&reference, &ReferenceContext::Root));
    let reference = Reference::PropertyPath("./a/p".into());
    assert!(!context.knows_start(&reference, &ReferenceContext::Root));
    let reference = Reference::Path("/a".into());
    assert!(context.knows_start(&reference, &ReferenceContext::Root));
    assert_eq!(context.get_position(&reference, &ReferenceContext::Root), None);
    let (_, context) = Code::new("/dts-v1/; / { };").get_analyzed_file();
    let reference = Reference::Path("./a".into());
    assert!(context.knows_start(&reference, &ReferenceContext::Root));
    assert_eq!(context.get_position(&reference, &ReferenceContext::Root), None);
}

#[test]
fn values_that_are_referred_to_are_joined() {
    let (_, context) =
        Code::new("/dts-v1/; / { p = <1 0x2>, \"three\", &l; };").get_analyzed_file();
    let reference = Reference::PropertyPath("/p".into());
    assert_eq!(
        context.get_referred(&reference, &ReferenceContext::Root),
        None
    );
    let reference = Reference::PropertyPath(PropertyPath::new(Path::empty(), "p".into()));
    assert_eq!(
        context.get_referred(&reference, &ReferenceContext::Root),
        Some("<1 0x2>, \"three\", &l".to_string())
    );
}

// ---------------------------------------------------------------------------
// More on projects

#[test]
fn known_files_are_not_read_again() {
    let mut world = World::new();
    let mut project = Project::default();
    world.add_file("/d/a.dtsi", "/ { a: x { }; };");
    world.add_file("/d/b.dts", r#"/dts-v1/; /include/ "a.dtsi" &a { };"#);
    world.add_to(&mut project, "/d/b.dts").unwrap();
    assert_eq!(world.reads, 1);
    assert_no_diagnostics(&project);
    world.add_file("/d/a.dtsi", "/ { };");
    world.add_to(&mut project, "/d/b.dts").unwrap();
    assert_eq!(world.reads, 1);
    assert_no_diagnostics(&project);
    let id = world.canonical("/d/a.dtsi");
    assert_eq!(project.get_file(id).unwrap().source(), "/ { a: x { }; };");

    // The root is analyzed again when a file that it includes changes.
    world.add_to(&mut project, "/d/a.dtsi").unwrap();
    assert_eq!(project.get_file(id).unwrap().source(), "/ { };");
    let diagnostics = world.diagnostics(&project, "/d/b.dts");
    assert_eq!(diagnostics.len(), 1);
    assert_eq!(*diagnostics[0].kind(), ErrorCode::UnresolvedReference);
    assert!(project.get_analysis(id.unwrap()).is_some());
    assert_eq!(
        project.get_file(id).unwrap().parent,
        world.canonical("/d/b.dts")
    );
}

#[test]
fn a_reset_forgets_the_root_and_what_it_includes() {
    let mut world = World::new();
    let mut project = Project::default();
    assert_eq!(project.reset(), None);
    world.add_file("/d/a.dtsi", "");
    world.add_file("/d/b.dtsi", r#"/include/ "a.dtsi""#);
    world.add_file("/d/c.dts", r#"/dts-v1/; /include/ "b.dtsi""#);
    world.add_file("/d/other.dts", "/dts-v1/;");
    world.add_to(&mut project, "/d/c.dts").unwrap();
    world.add_to(&mut project, "/d/other.dts").unwrap();
    let mut files = project.files();
    files.sort();
    let mut wanted: Vec<FileId> = ["/d/a.dtsi", "/d/b.dtsi", "/d/c.dts", "/d/other.dts"]
        .iter()
        .map(|path| world.id(path))
        .collect();
    wanted.sort();
    assert_eq!(files, wanted);
    assert_eq!(project.project_files().len(), 4);

    let root = world.id("/d/c.dts");
    assert_eq!(project.set_root_file_and_reset(root), root);
    assert_eq!(project.files(), vec![world.id("/d/other.dts")]);
    world.add_to(&mut project, "/d/c.dts").unwrap();
    assert_eq!(project.files().len(), 4);
    assert_eq!(project.reset(), Some(root));
    assert_eq!(project.files(), vec![world.id("/d/other.dts")]);
}

#[test]
fn a_file_whose_parent_is_gone_has_no_analysis() {
    let mut world = World::new();
    let mut project = Project::default();
    world.add_file("/d/a.dtsi", "");
    world.add_file("/d/b.dts", r#"/dts-v1/; /include/ "a.dtsi""#);
    world.add_to(&mut project, "/d/b.dts").unwrap();
    let a = world.id("/d/a.dtsi");
    let b = world.id("/d/b.dts");
    assert!(project.get_analysis(a).is_some());
    world.add_file("/d/b.dts", "/dts-v1/;");
    world.add_to(&mut project, "/d/b.dts").unwrap();
    assert!(project.get_analysis(a).is_some());
    project.set_root_file_and_reset(b);
    assert!(project.contains_file(a));
    assert!(!project.contains_file(b));
    assert!(project.get_analysis(a).is_none());
    assert!(project.get_analysis(b).is_none());
    assert_eq!(project.analysis_plan(a), vec![]);
    assert!(project.requests_of(b).is_none());
}

#[test]
fn what_a_file_includes_is_analyzed_before_it() {
    let mut world = World::new();
    let mut project = Project::default();
    world.add_file("/d/a.dtsi", "");
    world.add_file("/d/b.dtsi", r#"/include/ "a.dtsi""#);
    world.add_file("/d/c.dtsi", r#"/include/ "a.dtsi""#);
    world.add_file("/d/d.dts", r#"/dts-v1/; /include/ "b.dtsi" /include/ "c.dtsi""#);
    world.add_to(&mut project, "/d/d.dts").unwrap();
    let [a, b, c, d] = ["/d/a.dtsi", "/d/b.dtsi", "/d/c.dtsi", "/d/d.dts"].map(|p| world.id(p));
    let plan: Vec<(FileId, Option<FileId>)> = project
        .analysis_plan(a)
        .iter()
        .map(|planned| (planned.file, planned.parent))
        .collect();
    assert_eq!(
        plan,
        vec![(a, Some(b)), (b, Some(d)), (c, Some(d)), (d, None)]
    );
    assert_eq!(
        project.requests_of(d),
        Some((d, vec!["b.dtsi".to_string(), "c.dtsi".to_string()]))
    );
}

#[test]
fn inclusions_that_lead_nowhere() {
    let text = r#"/include/ "no file" /include/ "no path" /include/ "no text" /include/ "known""#;
    let code = Code::new(text);
    let mut project = Project::default();
    let mut run = ParseRun::start(1, text.to_string(), FileType::DtSourceInclude);
    assert!(matches!(run.action(), ParseAction::Parse(1, t) if t == text));
    run.parsed(
        &mut project,
        Ok(ParsedFile {
            file: Parser::new(text, 1).file().unwrap(),
            diagnostics: vec![expected(Position::zero(), 1, "x")],
        }),
    );
    assert!(project.get_file(Some(1)).unwrap().file.is_none());
    assert!(matches!(run.action(), ParseAction::Find(1, "no file")));
    run.found(
        &mut project,
        Err(IoError {
            message: "gone".to_string(),
        }),
    );
    assert!(matches!(run.action(), ParseAction::Find(1, "no path")));
    run.found(
        &mut project,
        Ok(LoadedFile {
            path: 2,
            canonical: None,
        }),
    );
    assert!(matches!(run.action(), ParseAction::Find(1, "no text")));
    run.found(
        &mut project,
        Ok(LoadedFile {
            path: 3,
            canonical: Some(4),
        }),
    );
    assert!(matches!(run.action(), ParseAction::Read(4)));
    run.read(
        &mut project,
        Err(IoError {
            message: "unreadable".to_string(),
        }),
    );
    assert!(matches!(run.action(), ParseAction::Find(1, "known")));
    run.found(
        &mut project,
        Ok(LoadedFile {
            path: 1,
            canonical: Some(1),
        }),
    );
    assert!(matches!(run.action(), ParseAction::Done));
    let file = project.get_file(Some(1)).unwrap();
    assert_eq!(file.includes, vec![4, 1]);
    assert_eq!(file.parent, None);
    assert_eq!(
        file.parser_diagnostics,
        vec![
            expected(Position::zero(), 1, "x"),
            Diagnostic::new(
                code.s1(r#"/include/ "no text""#).span(),
                1,
                ErrorCode::IOError,
                "unreadable"
            )
        ]
    );
    assert!(!project.contains_file(4));
}

#[test]
fn a_file_that_cannot_be_parsed() {
    let mut world = World::new();
    let mut project = Project::default();
    world.add_file("/d/a.dts", "/dts-v1/; oops");
    world.add_to(&mut project, "/d/a.dts").unwrap();
    let id = world.id("/d/a.dts");
    let file = project.get_file(Some(id)).unwrap();
    assert!(file.file.is_none());
    assert_eq!(file.source(), "/dts-v1/; oops");
    assert_eq!(file.file_type, FileType::DtSource);
    assert_eq!(file.diagnostics().len(), 1);
    assert!(project.is_faulty(Some(id)));
    assert!(!project.is_faulty(None));
    assert!(!project.is_faulty(Some(99)));
    assert!(project.get_root(Some(id)).is_none());
    assert!(document_symbol(&project, Some(id)).is_none());
    assert!(project.get_analysis(id).is_some());
}

#[test]
fn a_child_that_cannot_be_parsed_for_a_while() {
    let mut world = World::new();
    let mut project = Project::default();
    world.add_file("/d/a.dtsi", "/ { a: n {}; };");
    let code = world.add_file("/d/b.dts", r#"/dts-v1/; /include/ "a.dtsi" / { p = &a; };"#);
    world.add_to(&mut project, "/d/b.dts").unwrap();
    assert_no_diagnostics(&project);
    let a = world.id("/d/a.dtsi");
    let b = world.id("/d/b.dts");
    assert_eq!(project.get_file(Some(a)).unwrap().parent, Some(b));

    world.add_with_text(&mut project, "/d/a.dtsi", "/ { a: n {}; } oops");
    let file = project.get_file(Some(a)).unwrap();
    assert!(file.file.is_none());
    assert_eq!(file.source(), "/ { a: n {}; } oops");
    assert_eq!(file.parent, Some(b));
    let plan: Vec<(FileId, Option<FileId>)> = project
        .analysis_plan(a)
        .iter()
        .map(|planned| (planned.file, planned.parent))
        .collect();
    assert_eq!(plan, vec![(b, None)]);
    assert!(project.get_analysis(a).is_some());
    assert!(project.is_faulty(Some(a)));
    assert_same_elements(
        world.diagnostics(&project, "/d/b.dts"),
        vec![
            Diagnostic::new(
                code.s1(r#"/include/ "a.dtsi""#).span(),
                b,
                ErrorCode::ErrorsInInclude,
                "Included file contains errors",
            ),
            Diagnostic::new(
                code.s1("&a").span(),
                b,
                ErrorCode::UnresolvedReference,
                "Reference cannot be resolved",
            ),
        ],
    );

    world.add_with_text(&mut project, "/d/a.dtsi", "/ { a: n {}; };");
    assert_eq!(project.get_file(Some(a)).unwrap().parent, Some(b));
    assert_no_diagnostics(&project);
}

#[test]
fn an_included_file_that_cannot_be_parsed_has_a_parent() {
    let mut world = World::new();
    let mut project = Project::default();
    world.add_file("/d/a.dtsi", "oops");
    world.add_file("/d/b.dtsi", r#"/include/ "a.dtsi""#);
    world.add_file("/d/c.dts", r#"/dts-v1/; /include/ "b.dtsi""#);
    world.add_to(&mut project, "/d/c.dts").unwrap();
    let [a, b, c] = ["/d/a.dtsi", "/d/b.dtsi", "/d/c.dts"].map(|p| world.id(p));
    let file = project.get_file(Some(a)).unwrap();
    assert!(file.file.is_none());
    assert_eq!(file.parent, Some(b));
    assert_eq!(project.get_file(Some(b)).unwrap().parent, Some(c));
    assert_eq!(project.get_file(Some(c)).unwrap().parent, None);

    world.add_with_text(&mut project, "/d/a.dtsi", "");
    assert_eq!(project.get_file(Some(a)).unwrap().parent, Some(b));
    assert_no_diagnostics(&project);
}

#[test]
fn all_files_of_a_tree_share_the_analysis_of_the_root() {
    let mut world = World::new();
    let mut project = Project::default();
    world.add_file("/d/a.dtsi", "/ { a: n {}; };");
    world.add_file("/d/b.dtsi", r#"/include/ "a.dtsi""#);
    world.add_file("/d/c.dts", r#"/dts-v1/; /include/ "b.dtsi""#);
    world.add_to(&mut project, "/d/c.dts").unwrap();
    let [a, b, c] = ["/d/a.dtsi", "/d/b.dtsi", "/d/c.dts"].map(|p| world.id(p));
    let root = project.get_analysis(c).unwrap();
    assert!(std::ptr::eq(project.get_analysis(a).unwrap(), root));
    assert!(std::ptr::eq(project.get_analysis(b).unwrap(), root));
    for file in [a, b, c] {
        let (found, status) = project.analysis_root_for(file).unwrap();
        assert_eq!(found, c);
        assert!(matches!(status, AnalysisStatus::Root(context) if std::ptr::eq(context, root)));
    }
    assert!(project.analysis_root_for(99).is_none());
    let known = root.clone();
    assert_eq!(format!("{:?}", known), format!("{:?}", root));
    assert!(known.get_node_by_label("a").is_some());
    assert!(known.get_node_by_label("b").is_none());
    project.set_root_file_and_reset(c);
    assert!(project.get_analysis(a).is_none());
    assert!(project.analysis_root_for(a).is_none());
}

#[test]
fn a_clone_knows_the_same() {
    let (_, mut known) = Code::new("/dts-v1/; / { a: n { b: p = <1>; }; };").get_analyzed_file();
    assert_eq!(format!("{:?}", known.clone()), format!("{:?}", known));
    assert!(known.clone().get_node_by_label("a").is_some());
    let mut files = KeyedMap::new();
    files.insert("f.dtsi".to_string(), 5);
    known = AnalysisContext::with_includes(files);
    let clone = known.clone();
    assert_eq!(clone.get_includes().get(&"f.dtsi".to_string()), Some(&5));
    assert!(!clone.get_includes().contains_key(&"g.dtsi".to_string()));
}

#[test]
fn warnings_in_an_included_file_are_no_errors() {
    let mut world = World::new();
    let mut project = Project::default();
    world.add_file("/d/a.dtsi", "/ { compatible = <1>; };");
    world.add_file("/d/b.dts", r#"/dts-v1/; /include/ "a.dtsi""#);
    world.add_to(&mut project, "/d/b.dts").unwrap();
    assert_eq!(world.diagnostics(&project, "/d/a.dtsi").len(), 1);
    assert_eq!(world.diagnostics(&project, "/d/b.dts"), vec![]);
}

#[test]
fn settings_of_the_parser() {
    let mut project = Project::default();
    assert!(!project.parser_config().unlimited_property_length);
    project.set_parser_config(ParserConfig {
        unlimited_property_length: true,
    });
    assert!(project.parser_config().unlimited_property_length);
}

#[test]
fn project_files_by_hand() {
    let sentinel = ProjectFile::sentinel();
    assert!(sentinel.file.is_none());
    assert_eq!(sentinel.source(), "");
    assert_eq!(sentinel.file_type, FileType::Unknown);
    let err = expected(Position::zero(), 1, "y");
    let mut file =
        ProjectFile::unrecoverable(err.clone(), "text".to_string(), FileType::DtSource);
    file.analysis_diagnostics.push(expected(Position::zero(), 1, "z"));
    assert_eq!(
        file.diagnostics(),
        vec![&err, &expected(Position::zero(), 1, "z")]
    );
    let severities = Project::default().severities;
    assert!(file.has_errors(&severities));
    file.clear_diagnostics();
    assert!(!file.has_errors(&severities));
    assert_eq!(file.diagnostics(), Vec::<&Diagnostic>::new());
    let parsed = ProjectFile::parsed(
        Some(3),
        vec![4],
        vec![],
        FileType::DtSource,
        Code::new("").parse(),
        "".to_string(),
    );
    assert_eq!(parsed.parent, Some(3));
    assert_eq!(parsed.includes, vec![4]);
    assert!(parsed.file.is_some());
}

// ---------------------------------------------------------------------------
// What an editor is told

#[test]
fn symbols_of_a_file() {
    let code = Code::new(
        r#"/dts-v1/; /include/ "a.dtsi" /memreserve/ 0x1 0x2;
/ { l: node@1 { p = <1>; /delete-property/ q; /delete-node/ m@2; }; };
&l { }; /delete-node/ &x; /omit-if-no-ref/ &y;"#,
    );
    let symbols = document_symbols(&code.parse());
    let names: Vec<(&str, SymbolKind, bool)> = symbols
        .iter()
        .map(|symbol| (symbol.name.as_str(), symbol.kind, symbol.deprecated))
        .collect();
    assert_eq!(
        names,
        vec![
            ("include a.dtsi", SymbolKind::File, false),
            ("/", SymbolKind::Module, false),
            ("&l", SymbolKind::Module, false),
            ("&x", SymbolKind::Module, true),
            ("&y", SymbolKind::Field, false),
        ]
    );
    assert!(symbols[0].children.is_none());
    assert_eq!(symbols[0].range, code.s1(r#"/include/ "a.dtsi""#).span());
    assert_eq!(symbols[0].selection_range, code.s1(r#""a.dtsi""#).span());
    assert_eq!(symbols[2].children.as_ref().unwrap().len(), 0);
    assert_eq!(symbols[2].range, code.s1("&l { };").span());
    assert_eq!(symbols[2].selection_range, code.s1("&l").span());
    assert_eq!(symbols[3].range, code.s1("/delete-node/ &x").span());
    assert_eq!(symbols[4].range, code.s1("/omit-if-no-ref/ &y").span());

    let nodes = symbols[1].children.as_ref().unwrap();
    assert_eq!(nodes.len(), 1);
    assert_eq!(nodes[0].name, "node");
    assert_eq!(nodes[0].selection_range, code.s1("node@1").span());
    assert_eq!(nodes[0].range.start(), code.s1("l:").position());
    let items: Vec<(&str, SymbolKind, bool, Span)> = nodes[0]
        .children
        .as_ref()
        .unwrap()
        .iter()
        .map(|symbol| {
            (
                symbol.name.as_str(),
                symbol.kind,
                symbol.deprecated,
                symbol.range,
            )
        })
        .collect();
    assert_eq!(
        items,
        vec![
            ("p", SymbolKind::Property, false, code.s1("p = <1>;").span()),
            (
                "q",
                SymbolKind::Property,
                true,
                code.s1("/delete-property/ q").span()
            ),
            (
                "m@2",
                SymbolKind::Module,
                true,
                code.s1("/delete-node/ m@2").span()
            ),
        ]
    );
}

#[test]
fn texts_to_show_and_places_to_go_to() {
    let mut world = World::new();
    let mut project = Project::default();
    let code1 = world.add_file("/d/a.dtsi", "/ { l: node@1 { p = <7>; }; };");
    let code2 = world.add_file(
        "/d/b.dts",
        r#"/dts-v1/; /include/ "a.dtsi" / { k: n { x = &l, ${l/p}, &none; }; }; &{./q} { };"#,
    );
    world.add_to(&mut project, "/d/b.dts").unwrap();
    let a = world.id("/d/a.dtsi");
    let b = world.id("/d/b.dts");
    let item = |part: &Code| find_at_pos(&project, Some(b), part.position()).unwrap();

    let label = item(&code2.s1("&l"));
    assert!(knows_start(&project, b, &label));
    assert_eq!(hover(&project, b, &label), Some("node@1".to_string()));
    assert_eq!(
        goto_definition(&project, b, &label),
        Definition::Location(a, code1.s1("node@1").span())
    );
    assert_eq!(hover(&project, 99, &label), None);
    assert_eq!(goto_definition(&project, 99, &label), Definition::Nowhere);

    let property = item(&code2.s1("${l/p}"));
    assert_eq!(hover(&project, b, &property), Some("<7>".to_string()));
    assert_eq!(
        goto_definition(&project, b, &property),
        Definition::Location(a, code1.s1("p").span())
    );

    let none = item(&code2.s1("&none"));
    assert_eq!(hover(&project, b, &none), None);
    assert_eq!(goto_definition(&project, b, &none), Definition::Nowhere);

    let inclusion = item(&code2.s1("/include/"));
    let span = code2.s1(r#"/include/ "a.dtsi""#).span();
    assert_eq!(hover(&project, b, &inclusion), Some("a.dtsi".to_string()));
    assert_eq!(
        goto_definition(&project, b, &inclusion),
        Definition::Search("a.dtsi".to_string(), span)
    );
    assert_eq!(included_location(Ok(a), span), Definition::Location(a, span));
    assert_eq!(
        included_location(
            Err(IoError {
                message: "gone".to_string()
            }),
            span
        ),
        Definition::Nowhere
    );

    let written = item(&code2.s1("k:"));
    assert_eq!(hover(&project, b, &written), Some("k".to_string()));
    assert_eq!(goto_definition(&project, b, &written), Definition::Nowhere);
    assert_eq!(hover(&project, b, &ItemAtCursor::Other), None);

    let symbols = document_symbol(&project, Some(b)).unwrap();
    assert_eq!(symbols[0].name, "include a.dtsi");
    assert!(document_symbol(&project, None).is_none());

    let mut rootless = Project::default();
    world.add_file("/d/c.dts", "/dts-v1/; &{./q} { };");
    world.add_to(&mut rootless, "/d/c.dts").unwrap();
    let c = world.id("/d/c.dts");
    let dotted = find_at_pos(
        &rootless,
        Some(c),
        Code::new("/dts-v1/; &{./q} { };").s1("&").position(),
    )
    .unwrap();
    assert!(!knows_start(&rootless, c, &dotted));
    assert!(knows_start(&rootless, 99, &dotted));
}

#[test]
fn findings_are_reported_with_their_severity() {
    let severities = Project::default().severities;
    let span = Position::new(1, 2).to(Position::new(3, 4));
    let diagnostic = Diagnostic::new(span, 5, ErrorCode::DuplicateDirective, "twice");
    let told = report(&diagnostic, &severities, "server");
    assert_eq!(told.range, span);
    assert_eq!(told.message, "twice");
    assert_eq!(told.code, "duplicate_directive");
    assert_eq!(told.severity, Severity::Warning);
    assert_eq!(told.source, "server");
    let diagnostic = Diagnostic::new(span, 5, ErrorCode::IOError, "gone");
    let told = report(&diagnostic, &severities, "server");
    assert_eq!(told.code, "io_error");
    assert_eq!(told.severity, Severity::Error);
    assert_eq!(diagnostic.source(), 5);
    assert_eq!(
        invalid_url_message("http://x"),
        "Url http://x is not a valid file path"
    );
}

// ---------------------------------------------------------------------------
// Loaders

/// Answers with the number of searches so far, the number of directories and the length of
/// the name.
struct CountingLoader {
    loads: u64,
    directories: Vec<String>,
    changed: Vec<FileId>,
}

impl CountingLoader {
    fn new() -> CountingLoader {
        CountingLoader {
            loads: 0,
            directories: vec![],
            changed: vec![],
        }
    }
}

impl IncludeLoader for CountingLoader {
    fn load(&mut self, relative_to: FileId, name: &str) -> Result<FileId, IoError> {
        self.loads += 1;
        let directories = self.directories.len() as FileId;
        Ok(relative_to * 1000 + self.loads * 100 + directories * 10 + name.len() as FileId)
    }

    fn notify(&mut self, path: FileId) -> IncludeLoaderNotifyAction {
        if self.changed.contains(&path) {
            IncludeLoaderNotifyAction::Reset
        } else {
            self.changed.push(path);
            IncludeLoaderNotifyAction::Nothing
        }
    }

    fn set_include_paths(&mut self, include_paths: Vec<String>) {
        self.directories = include_paths;
    }
}

struct SilentLoader;

impl IncludeLoader for SilentLoader {
    fn load(&mut self, relative_to: FileId, _name: &str) -> Result<FileId, IoError> {
        Ok(relative_to)
    }

    fn set_include_paths(&mut self, _include_paths: Vec<String>) {}
}

struct WatchingLoader;

impl IncludeLoader for WatchingLoader {
    fn load(&mut self, _relative_to: FileId, name: &str) -> Result<FileId, IoError> {
        Err(IoError {
            message: name.to_string(),
        })
    }

    fn notify(&mut self, path: FileId) -> IncludeLoaderNotifyAction {
        if path == 1 {
            IncludeLoaderNotifyAction::Reset
        } else {
            IncludeLoaderNotifyAction::Nothing
        }
    }

    fn set_include_paths(&mut self, _include_paths: Vec<String>) {}

    fn watch_patterns(&self) -> Option<Vec<String>> {
        Some(vec!["**/*.dts".to_string()])
    }
}

#[test]
fn a_guard_hands_on_to_its_loader() {
    let mut guard = IncludeLoaderGuard::new(CountingLoader::new());
    assert_eq!(guard.load(4, "abc"), Ok(4103));
    assert_eq!(guard.load(4, ""), Ok(4200));
    guard.set_include_paths(vec!["x".to_string()]);
    assert_eq!(guard.load(4, "abc"), Ok(4313));

    let mut other = guard.clone();
    assert_eq!(other.load(1, "a"), Ok(1411));
    assert_eq!(guard.load(1, "a"), Ok(1511));
    other.set_include_paths(vec!["x".to_string(), "y".to_string()]);
    assert_eq!(guard.load(1, "a"), Ok(1621));
    guard.set_include_paths(vec![]);
    assert_eq!(other.clone().load(1, "a"), Ok(1701));
    assert_eq!(other.notify(5), IncludeLoaderNotifyAction::Nothing);
    assert_eq!(guard.notify(5), IncludeLoaderNotifyAction::Reset);
    assert_eq!(guard.notify(6), IncludeLoaderNotifyAction::Nothing);
    assert_eq!(other.notify(6), IncludeLoaderNotifyAction::Reset);

    let mut guard = IncludeLoaderGuard::new(SilentLoader);
    assert_eq!(guard.load(3, "n"), Ok(3));
    assert_eq!(guard.notify(1), IncludeLoaderNotifyAction::Nothing);
    assert_eq!(guard.clone().notify(1), IncludeLoaderNotifyAction::Nothing);
    assert_eq!(guard.watch_patterns(), None);

    let mut guard = IncludeLoaderGuard::new(WatchingLoader);
    assert_eq!(guard.notify(1), IncludeLoaderNotifyAction::Reset);
    assert_eq!(guard.notify(2), IncludeLoaderNotifyAction::Nothing);
    assert_eq!(guard.watch_patterns(), Some(vec!["**/*.dts".to_string()]));
    let other = guard.clone();
    assert_eq!(other.watch_patterns(), Some(vec!["**/*.dts".to_string()]));
    assert_eq!(
        guard.load(1, "n"),
        Err(IoError {
            message: "n".to_string()
        })
    );
}

#[test]
fn directories_are_searched_in_order() {
    let mut loader = DefaultIncludeLoader::default();
    assert_eq!(loader.candidate(0), Candidate::Beside);
    let gone = || {
        Err(IoError {
            message: "gone".to_string(),
        })
    };
    assert_eq!(loader.settle(0, gone()), Some(gone()));
    loader.set_include_paths(vec!["a".to_string(), "b".to_string()]);
    assert_eq!(loader.candidate(0), Candidate::Within("a"));
    assert_eq!(loader.candidate(1), Candidate::Within("b"));
    assert_eq!(loader.candidate(2), Candidate::Beside);
    assert_eq!(loader.settle(0, gone()), None);
    assert_eq!(loader.settle(1, Ok(3)), Some(Ok(3)));
    assert_eq!(loader.settle(2, gone()), Some(gone()));
}

#[test]
fn names_are_searched_for_one_after_the_other() {
    let mut guard = IncludeLoaderGuard::new(CountingLoader::new());
    let names = vec!["a".to_string(), "abc".to_string(), "ab".to_string()];
    assert_eq!(guard.load_all(2, &names), vec![Ok(2101), Ok(2203), Ok(2302)]);
    assert_eq!(guard.load_all(2, &vec![]), vec![]);
    assert_eq!(guard.clone().load_all(2, &names[1..].to_vec()), vec![Ok(2403), Ok(2502)]);
    assert_eq!(guard.load(2, ""), Ok(2600));

    let mut loader = CountingLoader::new();
    assert_eq!(load_by(&mut loader, 2, "a"), Ok(2101));
    assert_eq!(load_all_by(&mut loader, 2, &names), vec![Ok(2201), Ok(2303), Ok(2402)]);
    assert_eq!(loader.loads, 4);
    assert_eq!(notify_by(&mut loader, 8), IncludeLoaderNotifyAction::Nothing);
    assert_eq!(loader.changed, vec![8]);
    set_include_paths_by(&mut loader, vec!["x".to_string()]);
    assert_eq!(loader.directories, vec!["x".to_string()]);
}
