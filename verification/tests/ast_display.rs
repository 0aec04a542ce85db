use ginko::ast::{
    AbsolutePath, DotRelativePath, LabelRelativePath, NodeName, Path, PropertyPath,
};

#[test]
fn display_node_name() {
    let item = NodeName::with_address("foo", "12345678");
    assert_eq!(item.to_string(), "foo@12345678");
}

#[test]
fn display_absolute_path() {
    let item = AbsolutePath { elements: vec![] };
    assert_eq!(item.to_string(), "/");

    let node = NodeName::with_address("foo", "12345678");
    let item = AbsolutePath {
        elements: vec![node],
    };
    assert_eq!(item.to_string(), "/foo@12345678");

    let node1 = NodeName::with_address("foo", "12345678");
    let node2 = NodeName::simple("bar");
    let item = AbsolutePath {
        elements: vec![node1, node2],
    };
    assert_eq!(item.to_string(), "/foo@12345678/bar");
}

#[test]
fn display_dot_relative_path() {
    let item = DotRelativePath { elements: vec![] };
    assert_eq!(item.to_string(), "./");

    let node = NodeName::with_address("foo", "12345678");
    let item = DotRelativePath {
        elements: vec![node],
    };
    assert_eq!(item.to_string(), "./foo@12345678");

    let node1 = NodeName::with_address("foo", "12345678");
    let node2 = NodeName::simple("bar");
    let item = DotRelativePath {
        elements: vec![node1, node2],
    };
    assert_eq!(item.to_string(), "./foo@12345678/bar");
}

#[test]
fn display_label_relative_path() {
    let item = LabelRelativePath {
        label: "hello".into(),
        elements: vec![],
    };
    assert_eq!(item.to_string(), "hello");

    let node = NodeName::with_address("foo", "12345678");
    let item = LabelRelativePath {
        label: "hello".into(),
        elements: vec![node],
    };
    assert_eq!(item.to_string(), "hello/foo@12345678");

    let node1 = NodeName::with_address("foo", "12345678");
    let node2 = NodeName::simple("bar");
    let item = LabelRelativePath {
        label: "hello".into(),
        elements: vec![node1, node2],
    };
    assert_eq!(item.to_string(), "hello/foo@12345678/bar");
}

#[test]
fn display_path() {
    let item = Path::empty();
    assert_eq!(item.to_string(), "/");

    let item = Path::new_dot_relative(vec![]);
    assert_eq!(item.to_string(), "./");

    let item = Path::new_label_relative("hello".into(), vec![]);
    assert_eq!(item.to_string(), "hello");
}

#[test]
fn display_property_path() {
    let item = PropertyPath::new(Path::empty(), "prop".into());
    assert_eq!(item.to_string(), "/prop");

    let item = PropertyPath::new(Path::new_dot_relative(vec![]), "prop".into());
    assert_eq!(item.to_string(), "./prop");

    let item = PropertyPath::new(
        Path::new_label_relative("hello".into(), vec![]),
        "prop".into(),
    );
    assert_eq!(item.to_string(), "hello/prop");

    let elements = [NodeName::simple("foo"), NodeName::simple("bar")];

    let item = PropertyPath::new(Path::new_absolute(elements.to_vec()), "prop".into());
    assert_eq!(item.to_string(), "/foo/bar/prop");

    let item = PropertyPath::new(Path::new_dot_relative(elements.to_vec()), "prop".into());
    assert_eq!(item.to_string(), "./foo/bar/prop");

    let item = PropertyPath::new(
        Path::new_label_relative("hello".into(), elements.to_vec()),
        "prop".into(),
    );
    assert_eq!(item.to_string(), "hello/foo/bar/prop");
}
