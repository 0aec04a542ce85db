//! Paths and references: how they are read and how they are written.
use crate::ast::{
    names_view, AbsolutePath, DotRelativePath, LabelRelativePath, NodeName, NodeNameView, Path,
    PathView, PropertyPath, PropertyPathView, Reference, ReferenceView, WithToken,
};
use crate::text::{
    chars_of, find_first, find_last, lemma_split_first_at, lemma_split_first_of,
    lemma_split_first_shorter, lemma_split_first_whole, lemma_split_last_at, lemma_split_last_of,
    split_first, split_last,
};
use vstd::prelude::*;

verus! {

/// The node name that a text says: the first `@` parts it from its unit address.
pub open spec fn name_of(text: Seq<char>) -> NodeNameView {
    match split_first(text, '@') {
        Some((name, address)) => NodeNameView { name, unit_address: Some(address) },
        None => NodeNameView { name: text, unit_address: None },
    }
}

/// The node names between the slashes of a text; where nothing stands between
/// two slashes there is no name.
pub open spec fn names_of(text: Seq<char>) -> Seq<NodeNameView>
    decreases text.len(),
{
    match split_first(text, '/') {
        Some((front, back)) => {
            proof {
                lemma_split_first_shorter(text, '/');
            }
            some_name(front) + names_of(back)
        },
        None => some_name(text),
    }
}

/// The node name that a text says, unless the text is empty.
pub open spec fn some_name(text: Seq<char>) -> Seq<NodeNameView> {
    if text.len() == 0 {
        Seq::empty()
    } else {
        seq![name_of(text)]
    }
}

/// The path that a text says.
pub open spec fn path_of(text: Seq<char>) -> PathView {
    if text.len() > 0 && text[0] == '/' {
        PathView::Absolute(names_of(text))
    } else if text.len() > 1 && text[0] == '.' && text[1] == '/' {
        PathView::DotRelative(names_of(text.skip(2)))
    } else {
        match split_first(text, '/') {
            Some((label, rest)) => PathView::LabelRelative(label, names_of(rest)),
            None => PathView::LabelRelative(text, Seq::empty()),
        }
    }
}

/// The property path that a text says: what stands behind its last slash is the
/// name of the property.
pub open spec fn property_path_of(text: Seq<char>) -> PropertyPathView {
    match split_last(text, '/') {
        Some((node_path, property_name)) => PropertyPathView {
            node_path: path_of(node_path),
            property_name,
        },
        None => PropertyPathView {
            node_path: PathView::Absolute(Seq::empty()),
            property_name: text,
        },
    }
}

impl NodeName {
    /// Reads a node name.
    pub fn parse(value: &str) -> (r: NodeName)
        ensures
            r@ == name_of(value@),
    {
        let chars = chars_of(value);
        let end = chars.len();
        match find_first(&chars, '@') {
            Some(i) => {
                proof {
                    lemma_split_first_at(value@, '@', i as int);
                    assert(value@.subrange(0, i as int) =~= value@.take(i as int));
                    assert(value@.subrange(i + 1, value@.len() as int) =~= value@.skip(i + 1));
                }
                NodeName::with_address(
                    value.substring_char(0, i),
                    value.substring_char(i + 1, end),
                )
            },
            None => NodeName::simple(value),
        }
    }
}

impl vstd::std_specs::convert::FromSpecImpl<&str> for NodeName {
    open spec fn obeys_from_spec() -> bool {
        false
    }

    open spec fn from_spec(value: &str) -> NodeName {
        arbitrary()
    }
}

impl From<&str> for NodeName {
    fn from(value: &str) -> (r: NodeName)
        ensures
            r@ == name_of(value@),
    {
        NodeName::parse(value)
    }
}

impl vstd::std_specs::convert::FromSpecImpl<String> for NodeName {
    open spec fn obeys_from_spec() -> bool {
        false
    }

    open spec fn from_spec(value: String) -> NodeName {
        arbitrary()
    }
}

impl From<String> for NodeName {
    fn from(value: String) -> (r: NodeName)
        ensures
            r@ == name_of(value@),
    {
        NodeName::parse(value.as_str())
    }
}

impl vstd::std_specs::convert::FromSpecImpl<WithToken<String>> for WithToken<NodeName> {
    open spec fn obeys_from_spec() -> bool {
        false
    }

    open spec fn from_spec(value: WithToken<String>) -> WithToken<NodeName> {
        arbitrary()
    }
}

impl From<WithToken<String>> for WithToken<NodeName> {
    fn from(value: WithToken<String>) -> (r: WithToken<NodeName>)
        ensures
            r.item@ == name_of(value.item@),
            r.token == value.token,
    {
        WithToken::new(NodeName::parse(value.item.as_str()), value.token)
    }
}

/// Reads the node names between the slashes of a text.
fn split_path(path: &str) -> (r: Vec<NodeName>)
    ensures
        names_view(r@) == names_of(path@),
    decreases path@.len(),
{
    let chars = chars_of(path);
    let end = chars.len();
    match find_first(&chars, '/') {
        Some(i) => {
            proof {
                lemma_split_first_at(path@, '/', i as int);
                assert(path@.subrange(0, i as int) =~= path@.take(i as int));
                assert(path@.subrange(i + 1, path@.len() as int) =~= path@.skip(i + 1));
            }
            let front = path.substring_char(0, i);
            let mut names = some_name_in(front);
            let mut rest = split_path(path.substring_char(i + 1, end));
            let ghost before = names@;
            let ghost behind = rest@;
            names.append(&mut rest);
            assert(names_view(names@) =~= names_view(before) + names_view(behind));
            names
        },
        None => some_name_in(path),
    }
}

/// Reads a node name, unless the text is empty.
fn some_name_in(text: &str) -> (r: Vec<NodeName>)
    ensures
        names_view(r@) == some_name(text@),
{
    let mut r: Vec<NodeName> = Vec::new();
    if text.unicode_len() > 0 {
        r.push(NodeName::parse(text));
    }
    assert(names_view(r@) =~= some_name(text@));
    r
}

impl Path {
    /// Reads a path.
    pub fn parse(value: &str) -> (r: Path)
        ensures
            r@ == path_of(value@),
    {
        let chars = chars_of(value);
        let end = chars.len();
        if end > 0 && chars[0] == '/' {
            return Path::Absolute(AbsolutePath { elements: split_path(value) });
        }
        if end > 1 && chars[0] == '.' && chars[1] == '/' {
            assert(value@.subrange(2, value@.len() as int) =~= value@.skip(2));
            return Path::DotRelative(
                DotRelativePath { elements: split_path(value.substring_char(2, end)) },
            );
        }
        match find_first(&chars, '/') {
            Some(i) => {
                proof {
                    lemma_split_first_at(value@, '/', i as int);
                    assert(value@.subrange(0, i as int) =~= value@.take(i as int));
                    assert(value@.subrange(i + 1, value@.len() as int) =~= value@.skip(i + 1));
                }
                Path::new_label_relative(
                    value.substring_char(0, i).to_owned(),
                    split_path(value.substring_char(i + 1, end)),
                )
            },
            None => {
                let elements: Vec<NodeName> = Vec::new();
                assert(names_view(elements@) =~= Seq::<NodeNameView>::empty());
                Path::new_label_relative(value.to_owned(), elements)
            },
        }
    }
}

impl vstd::std_specs::convert::FromSpecImpl<&str> for Path {
    open spec fn obeys_from_spec() -> bool {
        false
    }

    open spec fn from_spec(value: &str) -> Path {
        arbitrary()
    }
}

impl From<&str> for Path {
    fn from(value: &str) -> (r: Path)
        ensures
            r@ == path_of(value@),
    {
        Path::parse(value)
    }
}

impl vstd::std_specs::convert::FromSpecImpl<String> for Path {
    open spec fn obeys_from_spec() -> bool {
        false
    }

    open spec fn from_spec(value: String) -> Path {
        arbitrary()
    }
}

impl From<String> for Path {
    fn from(value: String) -> (r: Path)
        ensures
            r@ == path_of(value@),
    {
        Path::parse(value.as_str())
    }
}

impl PropertyPath {
    /// Reads a path to a property.
    pub fn parse(value: &str) -> (r: PropertyPath)
        ensures
            r@ == property_path_of(value@),
    {
        let chars = chars_of(value);
        let end = chars.len();
        match find_last(&chars, '/') {
            Some(i) => {
                proof {
                    lemma_split_last_at(value@, '/', i as int);
                    assert(value@.subrange(0, i as int) =~= value@.take(i as int));
                    assert(value@.subrange(i + 1, value@.len() as int) =~= value@.skip(i + 1));
                }
                PropertyPath::new(
                    Path::parse(value.substring_char(0, i)),
                    value.substring_char(i + 1, end).to_owned(),
                )
            },
            None => PropertyPath::new(Path::empty(), value.to_owned()),
        }
    }
}

impl vstd::std_specs::convert::FromSpecImpl<&str> for PropertyPath {
    open spec fn obeys_from_spec() -> bool {
        false
    }

    open spec fn from_spec(value: &str) -> PropertyPath {
        arbitrary()
    }
}

impl From<&str> for PropertyPath {
    fn from(value: &str) -> (r: PropertyPath)
        ensures
            r@ == property_path_of(value@),
    {
        PropertyPath::parse(value)
    }
}

/// A node name in writing.
pub open spec fn name_text(name: NodeNameView) -> Seq<char> {
    match name.unit_address {
        Some(address) => name.name + seq!['@'] + address,
        None => name.name,
    }
}

/// Node names in writing, with a slash before each.
pub open spec fn names_text(names: Seq<NodeNameView>) -> Seq<char>
    decreases names.len(),
{
    if names.len() == 0 {
        Seq::empty()
    } else {
        names_text(names.drop_last()) + seq!['/'] + name_text(names.last())
    }
}

/// The names behind the start of a path, in writing: a slash if there are none.
pub open spec fn names_text_or_slash(names: Seq<NodeNameView>) -> Seq<char> {
    if names.len() == 0 {
        seq!['/']
    } else {
        names_text(names)
    }
}

/// A path in writing.
pub open spec fn path_text(path: PathView) -> Seq<char> {
    match path {
        PathView::Absolute(names) => names_text_or_slash(names),
        PathView::DotRelative(names) => seq!['.'] + names_text_or_slash(names),
        PathView::LabelRelative(label, names) => label + names_text(names),
    }
}

/// A path to a property in writing.
pub open spec fn property_path_text(path: PropertyPathView) -> Seq<char> {
    match path.node_path {
        PathView::Absolute(names) => names_text(names) + seq!['/'] + path.property_name,
        PathView::DotRelative(names) => seq!['.'] + names_text(names) + seq!['/']
            + path.property_name,
        PathView::LabelRelative(label, names) => label + names_text(names) + seq!['/']
            + path.property_name,
    }
}

/// A reference in writing.
pub open spec fn reference_text(reference: ReferenceView) -> Seq<char> {
    match reference {
        ReferenceView::Label(label) => seq!['&'] + label,
        ReferenceView::Path(path) => seq!['&', '{'] + path_text(path) + seq!['}'],
        ReferenceView::PropertyPath(path) => seq!['$', '{'] + property_path_text(path) + seq!['}'],
    }
}

/// Writes a slash and a name behind a text, for each of some names.
fn append_names(text: &mut String, names: &[NodeName])
    ensures
        final(text)@ == old(text)@ + names_text(names_view(names@)),
{
    let ghost all = names_view(names@);
    let mut i: usize = 0;
    assert(text@ =~= old(text)@ + names_text(all.take(0)));
    while i < names.len()
        invariant
            i <= names@.len(),
            all == names_view(names@),
            text@ == old(text)@ + names_text(all.take(i as int)),
        decreases names@.len() - i,
    {
        proof {
            reveal_strlit("/");
            assert(all.take(i + 1).drop_last() =~= all.take(i as int));
            assert("/"@ =~= seq!['/']);
        }
        text.append("/");
        text.append(names[i].to_string().as_str());
        assert(text@ =~= old(text)@ + names_text(all.take(i + 1)));
        i += 1;
    }
    assert(all.take(i as int) =~= all);
}

impl NodeName {
    /// This name in writing.
    pub fn to_string(&self) -> (r: String)
        ensures
            r@ == name_text(self@),
    {
        let mut r = self.name.clone();
        if let Some(address) = &self.unit_address {
            proof {
                reveal_strlit("@");
                assert("@"@ =~= seq!['@']);
            }
            r.append("@");
            r.append(address.as_str());
        }
        r
    }
}

impl AbsolutePath {
    /// This path in writing.
    pub fn to_string(&self) -> (r: String)
        ensures
            r@ == path_text(PathView::Absolute(self@)),
    {
        proof {
            reveal_strlit("/");
            reveal_strlit("");
        }
        if self.elements.len() == 0 {
            let r = "/".to_owned();
            assert(r@ =~= seq!['/']);
            r
        } else {
            let mut r = "".to_owned();
            append_names(&mut r, self.elements.as_slice());
            assert(r@ =~= names_text(self@));
            r
        }
    }
}

impl DotRelativePath {
    /// This path in writing.
    pub fn to_string(&self) -> (r: String)
        ensures
            r@ == path_text(PathView::DotRelative(names_view(self.elements@))),
    {
        proof {
            reveal_strlit("./");
            reveal_strlit(".");
        }
        if self.elements.len() == 0 {
            let r = "./".to_owned();
            assert(r@ =~= seq!['.'] + seq!['/']);
            r
        } else {
            let mut r = ".".to_owned();
            assert(r@ =~= seq!['.']);
            append_names(&mut r, self.elements.as_slice());
            r
        }
    }
}

impl LabelRelativePath {
    /// This path in writing.
    pub fn to_string(&self) -> (r: String)
        ensures
            r@ == path_text(PathView::LabelRelative(self.label@, names_view(self.elements@))),
    {
        let mut r = self.label.clone();
        append_names(&mut r, self.elements.as_slice());
        r
    }
}

impl Path {
    /// This path in writing.
    pub fn to_string(&self) -> (r: String)
        ensures
            r@ == path_text(self@),
    {
        match self {
            Path::Absolute(path) => path.to_string(),
            Path::DotRelative(path) => path.to_string(),
            Path::LabelRelative(path) => path.to_string(),
        }
    }
}

impl PropertyPath {
    /// This path in writing.
    pub fn to_string(&self) -> (r: String)
        ensures
            r@ == property_path_text(self@),
    {
        proof {
            reveal_strlit("");
            reveal_strlit(".");
            reveal_strlit("/");
        }
        let mut r = match &self.node_path {
            Path::Absolute(_) => "".to_owned(),
            Path::DotRelative(_) => ".".to_owned(),
            Path::LabelRelative(path) => path.label.clone(),
        };
        append_names(&mut r, self.node_path.elements().as_slice());
        r.append("/");
        r.append(self.property_name.as_str());
        assert(r@ =~= property_path_text(self@));
        r
    }
}

impl Reference {
    /// This reference in writing.
    pub fn to_string(&self) -> (r: String)
        ensures
            r@ == reference_text(self@),
    {
        proof {
            reveal_strlit("&");
            reveal_strlit("&{");
            reveal_strlit("${");
            reveal_strlit("}");
        }
        let r = match self {
            Reference::Label(label) => {
                let mut r = "&".to_owned();
                r.append(label.as_str());
                r
            },
            Reference::Path(path) => {
                let mut r = "&{".to_owned();
                r.append(path.to_string().as_str());
                r.append("}");
                r
            },
            Reference::PropertyPath(path) => {
                let mut r = "${".to_owned();
                r.append(path.to_string().as_str());
                r.append("}");
                r
            },
        };
        assert(r@ =~= reference_text(self@));
        r
    }
}

/// Whether a name can be told from its writing: a name with something to write,
/// with no slash in it, and with no `@` before its unit address.
pub open spec fn readable_name(name: NodeNameView) -> bool {
    &&& name_text(name).len() > 0
    &&& !name_text(name).contains('/')
    &&& !name.name.contains('@')
}

/// Whether each of some names can be told from its writing.
pub open spec fn readable_names(names: Seq<NodeNameView>) -> bool {
    forall|i: int| 0 <= i < names.len() ==> readable_name(#[trigger] names[i])
}

/// Whether a path can be told from its writing: each of its names can, and a
/// label has no slash in it and is neither empty nor a dot before further names.
pub open spec fn readable_path(path: PathView) -> bool {
    &&& readable_names(path.elements())
    &&& path matches PathView::LabelRelative(label, names) ==> {
        &&& !label.contains('/')
        &&& names.len() > 0 ==> label.len() > 0 && label != seq!['.']
    }
}

/// Whether a path to a property can be told from its writing.
pub open spec fn readable_property_path(path: PropertyPathView) -> bool {
    &&& readable_path(path.node_path)
    &&& path.node_path is LabelRelative || path.node_path.elements().len() > 0
    &&& !path.property_name.contains('/')
}

/// A written name is read as the name that it was.
pub proof fn lemma_name_reads_back(name: NodeNameView)
    requires
        readable_name(name),
    ensures
        name_of(name_text(name)) == name,
{
    if let Some(address) = name.unit_address {
        lemma_split_first_of(name.name, '@', address);
    }
}

/// What stands on both sides of a slash is read side by side.
pub proof fn lemma_names_of_sides(front: Seq<char>, back: Seq<char>)
    ensures
        names_of(front + seq!['/'] + back) == names_of(front) + names_of(back),
    decreases front.len(),
{
    let text = front + seq!['/'] + back;
    if front.contains('/') {
        lemma_split_first_shorter(front, '/');
        lemma_split_first_whole(front, '/');
        let (first, rest) = split_first(front, '/')->0;
        lemma_names_of_sides(rest, back);
        assert(text =~= first + seq!['/'] + (rest + seq!['/'] + back));
        lemma_split_first_of(first, '/', rest + seq!['/'] + back);
        assert(names_of(text) =~= names_of(front) + names_of(back));
    } else {
        lemma_split_first_of(front, '/', back);
        assert(names_of(text) =~= names_of(front) + names_of(back));
    }
}

/// Written names are read as the names that they were.
pub proof fn lemma_names_read_back(names: Seq<NodeNameView>)
    requires
        readable_names(names),
    ensures
        names_of(names_text(names)) == names,
    decreases names.len(),
{
    if names.len() == 0 {
        assert(names_text(names) =~= Seq::empty());
        assert(names_of(names_text(names)) =~= names);
    } else {
        let last = names.last();
        assert(readable_name(names[names.len() - 1]));
        assert forall|i: int| 0 <= i < names.drop_last().len() implies readable_name(
            #[trigger] names.drop_last()[i],
        ) by {
            assert(readable_name(names[i]));
        }
        lemma_names_read_back(names.drop_last());
        lemma_name_reads_back(last);
        lemma_names_of_sides(names_text(names.drop_last()), name_text(last));
        assert(names_of(name_text(last)) =~= seq![last]);
        assert(names_of(names_text(names)) =~= names);
    }
}

/// The writing of names starts with a slash; what follows is read as the names.
proof fn lemma_names_behind_slash(names: Seq<NodeNameView>)
    requires
        names.len() > 0,
        readable_names(names),
    ensures
        names_text(names).len() > 0,
        names_text(names)[0] == '/',
        names_text(names) == seq!['/'] + names_text(names).skip(1),
        names_of(names_text(names).skip(1)) == names,
{
    lemma_names_text_start(names);
    let rest = names_text(names).skip(1);
    lemma_names_read_back(names);
    lemma_names_of_sides(Seq::empty(), rest);
    assert(Seq::<char>::empty() + seq!['/'] + rest =~= names_text(names));
    assert(names_of(Seq::empty()) =~= Seq::empty());
    assert(names_of(names_text(names)) =~= names_of(rest));
}

proof fn lemma_names_text_start(names: Seq<NodeNameView>)
    requires
        names.len() > 0,
    ensures
        names_text(names).len() > 0,
        names_text(names)[0] == '/',
    decreases names.len(),
{
    if names.len() > 1 {
        lemma_names_text_start(names.drop_last());
    } else {
        assert(names_text(names.drop_last()) =~= Seq::empty());
    }
}

/// A written path is read as the path that it was.
pub proof fn lemma_path_reads_back(path: PathView)
    requires
        readable_path(path),
    ensures
        path_of(path_text(path)) == path,
{
    let text = path_text(path);
    let names = path.elements();
    if names.len() > 0 {
        lemma_names_behind_slash(names);
    }
    match path {
        PathView::Absolute(_) => {
            lemma_names_read_back(names);
            if names.len() == 0 {
                lemma_names_of_sides(Seq::empty(), Seq::empty());
                assert(Seq::<char>::empty() + seq!['/'] + Seq::<char>::empty() =~= text);
                assert(names_of(Seq::empty()) =~= Seq::empty());
                assert(names_of(text) =~= names);
            }
        },
        PathView::DotRelative(_) => {
            if names.len() == 0 {
                assert(text.skip(2) =~= Seq::empty());
                assert(names_of(text.skip(2)) =~= names);
            } else {
                assert(text.skip(2) =~= names_text(names).skip(1));
            }
        },
        PathView::LabelRelative(label, _) => {
            if names.len() == 0 {
                assert(text =~= label);
                assert(names =~= Seq::empty());
            } else {
                let rest = names_text(names).skip(1);
                assert(text =~= label + seq!['/'] + rest);
                lemma_split_first_of(label, '/', rest);
                assert(text[0] == label[0]);
                if text[0] == '.' && text[1] == '/' {
                    if label.len() == 1 {
                        assert(label =~= seq!['.']);
                    } else {
                        assert(text[1] == label[1]);
                    }
                }
            }
        },
    }
}

/// A written path to a property is read as the path that it was.
pub proof fn lemma_property_path_reads_back(path: PropertyPathView)
    requires
        readable_property_path(path),
    ensures
        property_path_of(property_path_text(path)) == path,
{
    lemma_path_reads_back(path.node_path);
    lemma_split_last_of(path_text(path.node_path), '/', path.property_name);
    assert(property_path_text(path) =~= path_text(path.node_path) + seq!['/']
        + path.property_name);
}

/// A name that is read from a text without slashes can be told from its writing.
proof fn lemma_read_name_readable(text: Seq<char>)
    requires
        text.len() > 0,
        !text.contains('/'),
    ensures
        readable_name(name_of(text)),
        name_text(name_of(text)) == text,
{
    lemma_split_first_shorter(text, '@');
    lemma_split_first_whole(text, '@');
    assert(name_text(name_of(text)) =~= text);
}

/// Names that are read from a text can be told from their writing.
proof fn lemma_read_names_readable(text: Seq<char>)
    ensures
        readable_names(names_of(text)),
    decreases text.len(),
{
    lemma_split_first_shorter(text, '/');
    match split_first(text, '/') {
        Some((front, back)) => {
            lemma_read_names_readable(back);
            if front.len() > 0 {
                lemma_read_name_readable(front);
            }
        },
        None => {
            if text.len() > 0 {
                lemma_read_name_readable(text);
            }
        },
    }
}

/// Every path that is read from a text can be told from its writing: to write it
/// and read it again gives the same path.
pub proof fn lemma_read_path_settles(text: Seq<char>)
    ensures
        readable_path(path_of(text)),
        path_of(path_text(path_of(text))) == path_of(text),
{
    lemma_read_names_readable(text);
    lemma_read_names_readable(text.skip(2));
    lemma_split_first_shorter(text, '/');
    lemma_split_first_whole(text, '/');
    if let Some((label, rest)) = split_first(text, '/') {
        lemma_read_names_readable(rest);
        assert(label.len() > 0 ==> text[0] == label[0]);
        assert(label =~= seq!['.'] ==> text[1] == '/');
    }
    lemma_path_reads_back(path_of(text));
}

} // verus!
