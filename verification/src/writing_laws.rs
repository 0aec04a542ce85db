//! How what is read and what is written hang together.
use crate::ast::{
    AnyDirective, Cell, DtsFile, Include, Memreserve, Node, NodeItem, NodeName, NodeNameView,
    NodePayload, NumberRepr, Path, PathView, Primary, Property, PropertyPath, PropertyValue,
    Reference, ReferencedNode, WithToken,
};
use crate::display::{byte_text, bytes_text, items_text, primaries_text, value_texts};
use crate::path::{
    lemma_names_of_sides, lemma_path_reads_back, lemma_property_path_reads_back, name_of,
    names_of, readable_path, readable_property_path,
};
use crate::search_laws::names_along;
use crate::text::{
    digit_char, digit_value, joined, lemma_number_reads_back, lemma_split_first_shorter,
    lemma_split_first_whole, number_text, number_value, split_first,
};
use std::sync::Arc;
use vstd::prelude::*;

verus! {

/// A name is what stands before the first `@` of a text, and the unit address what stands
/// behind it; without an `@` the whole text is the name.
pub proof fn lemma_name_is_parted(value: &str, r: NodeName)
    requires
        call_ensures(NodeName::parse, (value,), r),
    ensures
        !r.name@.contains('@'),
        match r.unit_address {
            Some(address) => value@ == r.name@ + seq!['@'] + address@,
            None => value@ == r.name@,
        },
{
    lemma_split_first_shorter(value@, '@');
    lemma_split_first_whole(value@, '@');
}

/// A written name is the name, with the unit address behind an `@` if it has one.
pub proof fn lemma_name_is_written(name: &NodeName, r: String)
    requires
        call_ensures(NodeName::to_string, (name,), r),
    ensures
        r@ == match name.unit_address {
            Some(address) => name.name@ + seq!['@'] + address@,
            None => name.name@,
        },
{
}

/// A text that starts with a slash is read as a path from the root, one that starts with a
/// dot and a slash as a path from a node, and any other as a path from the label that stands
/// before its first slash.
pub proof fn lemma_path_starts(value: &str, r: Path)
    requires
        call_ensures(Path::parse, (value,), r),
    ensures
        r is Absolute <==> value@.len() > 0 && value@[0] == '/',
        r is DotRelative <==> value@.len() > 1 && value@[0] == '.' && value@[1] == '/',
        r matches Path::LabelRelative(path) ==> !path.label@.contains('/') && (value@ == path.label@
            || exists|rest: Seq<char>| value@ == #[trigger] (path.label@ + seq!['/'] + rest)),
{
    lemma_split_first_shorter(value@, '/');
    lemma_split_first_whole(value@, '/');
    if let Some((label, rest)) = split_first(value@, '/') {
        assert(value@ == label + seq!['/'] + rest);
    }
}

/// A further name behind a slash is one name more along a path from the root, and a further
/// slash none.
pub proof fn lemma_path_goes_on(
    value: &str,
    longer: &str,
    name: &str,
    r: Path,
    longer_path: Path,
    parsed_name: NodeName,
)
    requires
        call_ensures(Path::parse, (value,), r),
        call_ensures(Path::parse, (longer,), longer_path),
        call_ensures(NodeName::parse, (name,), parsed_name),
        r is Absolute,
        longer@ == value@ + seq!['/'] + name@,
        !name@.contains('/'),
    ensures
        longer_path is Absolute,
        names_along(longer_path) == if name@.len() == 0 {
            names_along(r)
        } else {
            names_along(r).push(parsed_name@)
        },
{
    assert(longer@[0] == value@[0]);
    lemma_names_of_sides(value@, name@);
    assert(split_first(name@, '/') is None) by {
        lemma_split_first_shorter(name@, '/');
        lemma_split_first_whole(name@, '/');
        if let Some((front, back)) = split_first(name@, '/') {
            assert(name@[front.len() as int] == '/');
        }
    }
    assert(names_of(value@) + names_of(name@) =~= if name@.len() == 0 {
        names_of(value@)
    } else {
        names_of(value@).push(name_of(name@))
    });
}

/// The path from the root that a slash says has no names; behind a label, or a dot, the names
/// are those of the same text from the root.
pub proof fn lemma_path_behind_start(
    value: &str,
    from_root: &str,
    r: Path,
    root_path: Path,
)
    requires
        call_ensures(Path::parse, (value,), r),
        call_ensures(Path::parse, (from_root,), root_path),
        from_root@.len() > 0,
        from_root@[0] == '/',
    ensures
        value@ == seq!['/'] ==> names_along(r).len() == 0,
        value@ == seq!['.'] + from_root@ ==> r is DotRelative && names_along(r) == names_along(
            root_path,
        ),
        r matches Path::LabelRelative(path) ==> (value@ == path.label@ + from_root@
            ==> names_along(r) == names_along(root_path)),
{
    let rest = from_root@.skip(1);
    lemma_names_of_sides(Seq::empty(), rest);
    assert(from_root@ =~= Seq::<char>::empty() + seq!['/'] + rest);
    assert(names_of(Seq::empty()) =~= Seq::empty()) by {
        lemma_split_first_shorter(Seq::<char>::empty(), '/');
    }
    assert(names_of(from_root@) =~= names_of(rest));
    if value@ == seq!['/'] {
        lemma_names_of_sides(Seq::empty(), Seq::empty());
        assert(value@ =~= Seq::<char>::empty() + seq!['/'] + Seq::<char>::empty());
    }
    if value@ == seq!['.'] + from_root@ {
        assert(value@[0] == '.' && value@[1] == '/');
        assert(value@.skip(2) =~= rest);
    }
    if let Path::LabelRelative(path) = r {
        if value@ == path.label@ + from_root@ {
            lemma_split_first_shorter(value@, '/');
            lemma_split_first_whole(value@, '/');
            let (label, back) = split_first(value@, '/')->0;
            assert(value@[path.label@.len() as int] == '/');
            assert(back =~= value@.skip(label.len() as int + 1));
            assert(back =~= rest);
        }
    }
}

/// A path that is written and read again is the same, if it can be told from its writing.
pub proof fn lemma_path_is_written(path: &Path, r: String, text: &str, back: Path)
    requires
        call_ensures(Path::to_string, (path,), r),
        call_ensures(Path::parse, (text,), back),
        text@ == r@,
        readable_path(path@),
    ensures
        back@ == path@,
{
    lemma_path_reads_back(path@);
}

/// A path to a property that is written and read again is the same, if it can be told from
/// its writing. What stands behind the last slash is the name of the property.
pub proof fn lemma_property_path_is_written(
    path: &PropertyPath,
    r: String,
    text: &str,
    back: PropertyPath,
)
    requires
        call_ensures(PropertyPath::to_string, (path,), r),
        call_ensures(PropertyPath::parse, (text,), back),
        text@ == r@,
        readable_property_path(path@),
    ensures
        back@ == path@,
{
    lemma_property_path_reads_back(path@);
}

/// A reference is written with an `&` before a label, with the path in braces behind an `&`,
/// or with the path to a property in braces behind a `$`.
pub proof fn lemma_reference_is_written(reference: &Reference, r: String, inner: String)
    requires
        call_ensures(Reference::to_string, (reference,), r),
        match *reference {
            Reference::Label(label) => inner@ == label@,
            Reference::Path(path) => call_ensures(Path::to_string, (&path,), inner),
            Reference::PropertyPath(path) => call_ensures(
                PropertyPath::to_string,
                (&path,),
                inner,
            ),
        },
    ensures
        r@ == match *reference {
            Reference::Label(_) => seq!['&'] + inner@,
            Reference::Path(_) => seq!['&', '{'] + inner@ + seq!['}'],
            Reference::PropertyPath(_) => seq!['$', '{'] + inner@ + seq!['}'],
        },
{
}

/// Whether a text shows a number in a base, without digits that say nothing.
pub open spec fn shows_number(text: Seq<char>, number: nat, base: nat) -> bool {
    &&& number_value(text, base) == number
    &&& text.len() > 0
    &&& text[0] == '0' ==> text.len() == 1
}

proof fn lemma_number_is_shown(number: nat, base: nat)
    requires
        2 <= base <= 16,
    ensures
        shows_number(number_text(number, base), number, base),
    decreases number,
{
    lemma_number_reads_back(number, base);
    if number >= base {
        assert(0 < number / base < number) by (nonlinear_arith)
            requires
                base >= 2,
                number >= base,
        ;
        lemma_number_is_shown(number / base, base);
        if number_text(number / base, base)[0] == '0' {
            assert(number_text(number / base, base) =~= seq!['0']);
            assert(number_value(seq!['0'].drop_last(), base) == 0);
            assert(0 * base == 0) by (nonlinear_arith);
        }
    }
}

/// A number in a cell is written in its base, and says what it is; a reference is written as
/// a reference, and an expression as it stands.
pub proof fn lemma_cell_is_written(cell: &Cell, r: String, reference_text: String)
    requires
        call_ensures(Cell::to_string, (cell,), r),
        cell matches Cell::Reference(reference) ==> call_ensures(
            Reference::to_string,
            (&reference.item,),
            reference_text,
        ),
    ensures
        match *cell {
            Cell::Number(number, NumberRepr::Decimal) => shows_number(r@, number.item as nat, 10),
            Cell::Number(number, NumberRepr::Octal) => r@.len() > 1 && r@[0] == '0'
                && shows_number(r@.skip(1), number.item as nat, 8),
            Cell::Number(number, NumberRepr::Hexadecimal) => r@.len() > 2 && r@[0] == '0' && r@[1]
                == 'x' && shows_number(r@.skip(2), number.item as nat, 16),
            Cell::Reference(_) => r@ == reference_text@,
            Cell::Expression(expression) => r@ == expression.item@,
        },
{
    reveal_strlit("0");
    reveal_strlit("0x");
    if let Cell::Number(number, repr) = cell {
        let value = number.item as nat;
        match repr {
            NumberRepr::Decimal => {
                lemma_number_is_shown(value, 10);
            },
            NumberRepr::Octal => {
                lemma_number_is_shown(value, 8);
                assert(r@.skip(1) =~= number_text(value, 8));
            },
            NumberRepr::Hexadecimal => {
                lemma_number_is_shown(value, 16);
                assert(r@.skip(2) =~= number_text(value, 16));
            },
        }
    }
}

/// Whether two paths start alike: at the root, at a node, or at the same label.
pub open spec fn start_alike(a: Path, b: Path) -> bool {
    match (a, b) {
        (Path::Absolute(_), Path::Absolute(_)) => true,
        (Path::DotRelative(_), Path::DotRelative(_)) => true,
        (Path::LabelRelative(x), Path::LabelRelative(y)) => x.label@ == y.label@,
        _ => false,
    }
}

/// A path is written with what it starts at, which is nothing for the root, a dot for a node
/// and a label by itself, and then a slash and a name for each of its names. Without a name
/// there is a slash behind the root and behind a dot.
pub proof fn lemma_path_writing_goes_on(
    path: &Path,
    longer: &Path,
    name: &NodeName,
    r: String,
    longer_text: String,
    name_text: String,
)
    requires
        call_ensures(Path::to_string, (path,), r),
        call_ensures(Path::to_string, (longer,), longer_text),
        call_ensures(NodeName::to_string, (name,), name_text),
        start_alike(*path, *longer),
        names_along(*longer) == names_along(*path).push(name@),
    ensures
        names_along(*path).len() > 0 ==> longer_text@ == r@ + seq!['/'] + name_text@,
        names_along(*path).len() == 0 ==> match *path {
            Path::Absolute(_) => r@ == seq!['/'] && longer_text@ == r@ + name_text@,
            Path::DotRelative(_) => r@ == seq!['.', '/'] && longer_text@ == r@ + name_text@,
            Path::LabelRelative(path) => r@ == path.label@ && longer_text@ == r@ + seq!['/']
                + name_text@,
        },
{
    let names = names_along(*path);
    assert(names.push(name@).drop_last() =~= names);
    if names.len() == 0 {
        assert(crate::path::names_text(names) =~= Seq::empty());
        match path {
            Path::DotRelative(_) => {
                assert(r@ =~= seq!['.', '/']);
                assert(longer_text@ =~= r@ + name_text@);
            },
            Path::Absolute(_) => {
                assert(longer_text@ =~= r@ + name_text@);
            },
            Path::LabelRelative(path) => {
                assert(r@ =~= path.label@);
                assert(longer_text@ =~= r@ + seq!['/'] + name_text@);
            },
        }
    } else {
        assert(longer_text@ =~= r@ + seq!['/'] + name_text@);
    }
}

/// A path to a property is written as the path to the node, a slash and the name of the
/// property; behind the root, and behind a dot without a name, there is one slash only.
pub proof fn lemma_property_writing(
    path: &PropertyPath,
    r: String,
    node_text: String,
)
    requires
        call_ensures(PropertyPath::to_string, (path,), r),
        call_ensures(Path::to_string, (&path.node_path,), node_text),
    ensures
        r@ == if names_along(path.node_path).len() == 0 && !(path.node_path is LabelRelative) {
            node_text@ + path.property_name@
        } else {
            node_text@ + seq!['/'] + path.property_name@
        },
{
    if names_along(path.node_path).len() == 0 {
        assert(crate::path::names_text(names_along(path.node_path)) =~= Seq::empty());
        assert(r@ =~= if !(path.node_path is LabelRelative) {
            node_text@ + path.property_name@
        } else {
            node_text@ + seq!['/'] + path.property_name@
        });
    } else {
        assert(r@ =~= node_text@ + seq!['/'] + path.property_name@);
    }
}

/// Whether a text is made of parts, in order, with a separator between each two.
pub open spec fn is_made_of(
    text: Seq<char>,
    parts: Seq<Seq<char>>,
    separator: Seq<char>,
) -> bool
    decreases parts.len(),
{
    if parts.len() == 0 {
        text.len() == 0
    } else if parts.len() == 1 {
        text == parts[0]
    } else {
        exists|rest: Seq<char>|
            text == #[trigger] (parts[0] + separator + rest) && is_made_of(
                rest,
                parts.skip(1),
                separator,
            )
    }
}

proof fn lemma_joined_from_front(parts: Seq<Seq<char>>, separator: Seq<char>)
    requires
        parts.len() > 1,
    ensures
        joined(parts, separator) == parts[0] + separator + joined(parts.skip(1), separator),
    decreases parts.len(),
{
    if parts.len() == 2 {
        assert(joined(parts.drop_last(), separator) == parts[0]);
        assert(joined(parts.skip(1), separator) == parts[1]);
        assert(joined(parts, separator) =~= parts[0] + separator + joined(
            parts.skip(1),
            separator,
        ));
    } else {
        lemma_joined_from_front(parts.drop_last(), separator);
        assert(parts.drop_last().skip(1) =~= parts.skip(1).drop_last());
        assert(joined(parts, separator) =~= parts[0] + separator + joined(
            parts.skip(1),
            separator,
        ));
    }
}

proof fn lemma_joined_is_made_of(parts: Seq<Seq<char>>, separator: Seq<char>)
    ensures
        is_made_of(joined(parts, separator), parts, separator),
    decreases parts.len(),
{
    if parts.len() > 1 {
        lemma_joined_from_front(parts, separator);
        lemma_joined_is_made_of(parts.skip(1), separator);
        let rest = joined(parts.skip(1), separator);
        assert(joined(parts, separator) == parts[0] + separator + rest);
    }
}

/// Whether two characters show a byte: as two digits, or as a blank and one digit.
pub open spec fn shows_byte(first: char, second: char, byte: u8) -> bool {
    if byte < 16 {
        first == ' ' && digit_value(second) == byte
    } else {
        number_value(seq![first, second], 16) == byte
    }
}

/// Whether a text shows bytes, two characters for each.
pub open spec fn shows_bytes(text: Seq<char>, bytes: Seq<u8>) -> bool {
    &&& text.len() == 2 * bytes.len()
    &&& forall|j: int|
        0 <= j < bytes.len() ==> shows_byte(text[2 * j], text[2 * j + 1], #[trigger] bytes[j])
}

proof fn lemma_byte_is_shown(byte: u8)
    ensures
        byte_text(byte).len() == 2,
        shows_byte(byte_text(byte)[0], byte_text(byte)[1], byte),
{
    reveal_strlit(" ");
    let value = byte as nat;
    lemma_number_reads_back(value, 16);
    if value < 16 {
        assert(number_text(value, 16) =~= seq![digit_char(value)]);
    } else {
        assert(number_text(value / 16, 16) =~= seq![digit_char(value / 16)]);
        let text = byte_text(byte);
        assert(text.len() == 2);
        assert(seq![text[0], text[1]] =~= text);
    }
}

proof fn lemma_bytes_are_shown(bytes: Seq<u8>)
    ensures
        shows_bytes(bytes_text(bytes), bytes),
    decreases bytes.len(),
{
    if bytes.len() > 0 {
        let front = bytes.drop_last();
        let text = bytes_text(bytes);
        lemma_bytes_are_shown(front);
        lemma_byte_is_shown(bytes.last());
        assert forall|j: int| 0 <= j < bytes.len() implies shows_byte(
            text[2 * j],
            text[2 * j + 1],
            #[trigger] bytes[j],
        ) by {
            if j < front.len() {
                assert(front[j] == bytes[j]);
                assert(text[2 * j] == bytes_text(front)[2 * j]);
                assert(text[2 * j + 1] == bytes_text(front)[2 * j + 1]);
            }
        }
    }
}

/// A value is written in quotes if it is a string, as a reference if it is one, and in angle
/// brackets with a blank between two cells if it is a list of cells. Bytes are written in
/// square brackets, two columns for each, with a blank between two strings of them.
pub proof fn lemma_value_is_written(
    value: &PropertyValue,
    r: String,
    parts: Seq<String>,
    reference_text: String,
    inclusion_text: String,
)
    requires
        call_ensures(PropertyValue::to_string, (value,), r),
        value matches PropertyValue::Incbin(_, inclusion, _) ==> call_ensures(
            Include::to_string,
            (&inclusion,),
            inclusion_text,
        ),
        value matches PropertyValue::Reference(reference) ==> call_ensures(
            Reference::to_string,
            (&reference.item,),
            reference_text,
        ),
        value matches PropertyValue::Cells(_, cells, _) ==> parts.len() == cells@.len()
            && forall|i: int|
            0 <= i < cells@.len() ==> call_ensures(
                Cell::to_string,
                (&#[trigger] cells@[i],),
                parts[i],
            ),
    ensures
        match *value {
            PropertyValue::String(text) => r@ == seq!['"'] + text.item@ + seq!['"'],
            PropertyValue::Reference(_) => r@ == reference_text@,
            PropertyValue::Cells(_, _, _) => r@.len() >= 2 && r@[0] == '<' && r@.last() == '>'
                && is_made_of(
                r@.subrange(1, r@.len() - 1),
                parts.map_values(|part: String| part@),
                seq![' '],
            ),
            PropertyValue::ByteStrings(_, strings, _) => r@.len() >= 2 && r@[0] == '[' && r@.last()
                == ']' && exists|shown: Seq<Seq<char>>|
                {
                    &&& shown.len() == strings@.len()
                    &&& forall|k: int|
                        0 <= k < strings@.len() ==> shows_bytes(
                            #[trigger] shown[k],
                            strings@[k].item@,
                        )
                    &&& #[trigger] is_made_of(r@.subrange(1, r@.len() - 1), shown, seq![' '])
                },
            PropertyValue::Incbin(_, _, _) => r@ == "/incbin/(\""@ + inclusion_text@ + "\")"@,
        },
{
    reveal_strlit("\"");
    reveal_strlit("<");
    reveal_strlit(">");
    reveal_strlit("[");
    reveal_strlit("]");
    reveal_strlit(" ");
    assert(" "@ =~= seq![' ']);
    match value {
        PropertyValue::String(text) => {
            assert(r@ =~= seq!['"'] + text.item@ + seq!['"']);
        },
        PropertyValue::Cells(_, cells, _) => {
            let texts = cells@.map_values(|cell: Cell| crate::display::cell_text(cell));
            assert(texts =~= parts.map_values(|part: String| part@)) by {
                assert forall|i: int| 0 <= i < cells@.len() implies texts[i] == parts[i]@ by {
                    assert(call_ensures(Cell::to_string, (&cells@[i],), parts[i]));
                }
            }
            lemma_joined_is_made_of(texts, seq![' ']);
            assert(r@.subrange(1, r@.len() - 1) =~= joined(texts, seq![' ']));
        },
        PropertyValue::ByteStrings(_, strings, _) => {
            let texts = strings@.map_values(
                |bytes: WithToken<Vec<u8>>| bytes_text(bytes.item@),
            );
            lemma_joined_is_made_of(texts, seq![' ']);
            assert(r@.subrange(1, r@.len() - 1) =~= joined(texts, seq![' ']));
            assert forall|k: int| 0 <= k < strings@.len() implies shows_bytes(
                #[trigger] texts[k],
                strings@[k].item@,
            ) by {
                lemma_bytes_are_shown(strings@[k].item@);
            }
            assert(is_made_of(r@.subrange(1, r@.len() - 1), texts, seq![' ']));
        },
        _ => {},
    }
}

/// An inclusion is written with the name of the file in quotes.
pub proof fn lemma_inclusion_is_written(inclusion: &Include, r: String)
    requires
        call_ensures(Include::to_string, (inclusion,), r),
    ensures
        r@ == "/include/ \""@ + inclusion.file_name.item@ + "\""@,
{
}

/// A property is written as its name and, behind an equals sign, its values with a comma
/// between two of them.
pub proof fn lemma_property_is_written(property: &Property, r: String, parts: Seq<String>)
    requires
        call_ensures(Property::to_string, (property,), r),
        parts.len() == property.values@.len(),
        forall|i: int|
            0 <= i < property.values@.len() ==> call_ensures(
                PropertyValue::to_string,
                (&#[trigger] property.values@[i],),
                parts[i],
            ),
    ensures
        property.values@.len() == 0 ==> r@ == property.name.item@ + ";\n"@,
        property.values@.len() > 0 ==> exists|values: Seq<char>|
            {
                &&& r@ == #[trigger] (property.name.item@ + " = "@ + values) + ";\n"@
                &&& is_made_of(values, parts.map_values(|part: String| part@), seq![',', ' '])
            },
{
    reveal_strlit(", ");
    assert(", "@ =~= seq![',', ' ']);
    if property.values@.len() > 0 {
        let texts = value_texts(property.values@);
        assert(texts =~= parts.map_values(|part: String| part@)) by {
            assert forall|i: int| 0 <= i < texts.len() implies texts[i] == parts[i]@ by {
                assert(call_ensures(
                    PropertyValue::to_string,
                    (&property.values@[i],),
                    parts[i],
                ));
            }
        }
        let values = joined(texts, seq![',', ' ']);
        lemma_joined_is_made_of(texts, seq![',', ' ']);
        assert(r@ == (property.name.item@ + " = "@ + values) + ";\n"@);
    }
}

/// What stands between braces is written with each item on a line of its own: one item more
/// is one line more before the closing brace.
pub proof fn lemma_payload_writing_goes_on(
    payload: &NodePayload,
    longer: &NodePayload,
    item: &NodeItem,
    r: String,
    longer_text: String,
    item_text: String,
)
    requires
        call_ensures(NodePayload::to_string, (payload,), r),
        call_ensures(NodePayload::to_string, (longer,), longer_text),
        call_ensures(NodeItem::to_string, (item,), item_text),
        longer.items@ == payload.items@.push(*item),
    ensures
        payload.items@.len() == 0 ==> r@ == "{\n"@ + "};"@,
        exists|front: Seq<char>|
            {
                &&& r@ == #[trigger] (front + "};"@)
                &&& longer_text@ == front + "    "@ + item_text@ + "\n"@ + "};"@
            },
{
    let front = "{\n"@ + items_text(payload.items@);
    assert(longer.items@.drop_last() =~= payload.items@);
    if payload.items@.len() == 0 {
        assert(items_text(payload.items@) =~= Seq::empty());
        assert(r@ =~= "{\n"@ + "};"@);
    }
    assert(r@ == front + "};"@);
    assert(longer_text@ =~= front + "    "@ + item_text@ + "\n"@ + "};"@);
}

/// A node is written with its label and a colon, its name, and what stands between its
/// braces; a node that is given by a reference with the reference in place of label and name.
pub proof fn lemma_node_is_written(
    node: &Node,
    r: String,
    name_text: String,
    payload_text: String,
    referenced: &ReferencedNode,
    referenced_text: String,
    reference_text: String,
    referenced_payload: String,
)
    requires
        call_ensures(Node::to_string, (node,), r),
        call_ensures(NodeName::to_string, (&node.name.item,), name_text),
        call_ensures(NodePayload::to_string, (&node.payload,), payload_text),
        call_ensures(ReferencedNode::to_string, (referenced,), referenced_text),
        call_ensures(Reference::to_string, (&referenced.reference.item,), reference_text),
        call_ensures(NodePayload::to_string, (&referenced.payload,), referenced_payload),
    ensures
        r@ == match node.label {
            Some(label) => label.item@ + ": "@ + name_text@ + " "@ + payload_text@,
            None => name_text@ + " "@ + payload_text@,
        },
        referenced_text@ == reference_text@ + " "@ + referenced_payload@,
{
    assert(r@ =~= match node.label {
        Some(label) => label.item@ + ": "@ + name_text@ + " "@ + payload_text@,
        None => name_text@ + " "@ + payload_text@,
    });
}

/// A file is written with each element on lines of its own: one element more is its writing
/// and the end of a line more.
pub proof fn lemma_file_writing_goes_on(
    file: &DtsFile,
    longer: &DtsFile,
    primary: &Primary,
    r: String,
    longer_text: String,
    primary_text: String,
)
    requires
        call_ensures(DtsFile::to_string, (file,), r),
        call_ensures(DtsFile::to_string, (longer,), longer_text),
        call_ensures(Primary::to_string, (primary,), primary_text),
        longer.elements@ == file.elements@.push(*primary),
    ensures
        file.elements@.len() == 0 ==> r@.len() == 0,
        longer_text@ == r@ + primary_text@ + "\n"@,
{
    assert(longer.elements@.drop_last() =~= file.elements@);
}

/// Between braces a property is written as a property and a node as a node. What is deleted
/// is written by its name behind the directive.
pub proof fn lemma_item_is_written(
    item: &NodeItem,
    r: String,
    inner: String,
)
    requires
        call_ensures(NodeItem::to_string, (item,), r),
        match *item {
            NodeItem::Property(property) => call_ensures(
                Property::to_string,
                (&*property,),
                inner,
            ),
            NodeItem::Node(node) => call_ensures(Node::to_string, (&*node,), inner),
            NodeItem::DeletedNode(_, name) => call_ensures(
                NodeName::to_string,
                (&name.item,),
                inner,
            ),
            NodeItem::DeletedProperty(_, name) => inner@ == name.item@,
        },
    ensures
        r@ == match *item {
            NodeItem::Property(_) | NodeItem::Node(_) => inner@,
            NodeItem::DeletedNode(_, _) => "/delete-node/ "@ + inner@,
            NodeItem::DeletedProperty(_, _) => "/delete-property/ "@ + inner@,
        },
{
}

/// A reservation of memory is written with its address and its length, in this order and to
/// base sixteen.
pub proof fn lemma_memreserve_is_written(memreserve: &Memreserve, r: String)
    requires
        call_ensures(Memreserve::to_string, (memreserve,), r),
    ensures
        exists|address: Seq<char>, length: Seq<char>|
            {
                &&& r@ == #[trigger] ("/memreserve/ 0x"@ + address + " 0x"@ + length + ";"@)
                &&& shows_number(address, memreserve.address.item as nat, 16)
                &&& shows_number(length, memreserve.length.item as nat, 16)
            },
{
    let address = number_text(memreserve.address.item as nat, 16);
    let length = number_text(memreserve.length.item as nat, 16);
    lemma_number_is_shown(memreserve.address.item as nat, 16);
    lemma_number_is_shown(memreserve.length.item as nat, 16);
    assert(r@ == "/memreserve/ 0x"@ + address + " 0x"@ + length + ";"@);
}

/// A directive is written by its word and what it names, with a semicolon at its end unless
/// it names a file.
pub proof fn lemma_directive_is_written(directive: &AnyDirective, r: String, inner: String)
    requires
        call_ensures(AnyDirective::to_string, (directive,), r),
        match *directive {
            AnyDirective::DtsHeader(_) => inner@ == "/dts-v1/"@,
            AnyDirective::Plugin(_) => inner@ == "/plugin/"@,
            AnyDirective::Memreserve(memreserve) => call_ensures(
                Memreserve::to_string,
                (&memreserve,),
                inner,
            ),
            AnyDirective::Include(inclusion) => call_ensures(
                Include::to_string,
                (&inclusion,),
                inner,
            ),
            AnyDirective::DeletedNode(_, reference) => call_ensures(
                Reference::to_string,
                (&reference.item,),
                inner,
            ),
            AnyDirective::OmitIfNoRef(_, reference) => call_ensures(
                Reference::to_string,
                (&reference.item,),
                inner,
            ),
        },
    ensures
        r@ == match *directive {
            AnyDirective::DtsHeader(_)
            | AnyDirective::Plugin(_)
            | AnyDirective::Memreserve(_) => inner@ + ";"@,
            AnyDirective::Include(_) => inner@,
            AnyDirective::DeletedNode(_, _) => "/delete-node/ "@ + inner@ + ";"@,
            AnyDirective::OmitIfNoRef(_, _) => "/omit-if-no-ref/ "@ + inner@ + ";"@,
        },
{
    reveal_strlit("/dts-v1/;");
    reveal_strlit("/dts-v1/");
    reveal_strlit("/plugin/;");
    reveal_strlit("/plugin/");
    reveal_strlit(";");
    assert("/dts-v1/"@ + ";"@ =~= "/dts-v1/;"@);
    assert("/plugin/"@ + ";"@ =~= "/plugin/;"@);
}

/// An element of a file is written as what it is.
pub proof fn lemma_element_is_written(primary: &Primary, r: String, inner: String)
    requires
        call_ensures(Primary::to_string, (primary,), r),
        match *primary {
            Primary::Directive(directive) => call_ensures(
                AnyDirective::to_string,
                (&directive,),
                inner,
            ),
            Primary::Root(node) => call_ensures(Node::to_string, (&*node,), inner),
            Primary::ReferencedNode(node) => call_ensures(
                ReferencedNode::to_string,
                (&*node,),
                inner,
            ),
            Primary::CStyleInclude(text) => inner@ == text@,
        },
    ensures
        r@ == match *primary {
            Primary::CStyleInclude(_) => "#include "@ + inner@,
            _ => inner@,
        },
{
}

} // verus!
