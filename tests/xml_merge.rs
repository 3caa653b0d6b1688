use papers_tools::xml::{
    build_index, element_identity, keys_present, merge, replace_all, write_node, NodeKind, XmlAttr, XmlDoc, XmlEvent, XmlNode,
};

fn add(doc: &mut Vec<XmlNode>, node: roxmltree::Node) -> Option<usize> {
    let (kind, text) = if node.is_element() {
        (NodeKind::Element, Vec::new())
    } else if node.is_text() {
        (NodeKind::Text, node.text().unwrap_or("").as_bytes().to_vec())
    } else if node.is_comment() {
        (NodeKind::Comment, node.text().unwrap_or("").as_bytes().to_vec())
    } else {
        return None;
    };
    let at = doc.len();
    doc.push(XmlNode {
        kind,
        name: node.tag_name().name().as_bytes().to_vec(),
        attrs: node
            .attributes()
            .map(|a| XmlAttr { name: a.name().as_bytes().to_vec(), value: a.value().as_bytes().to_vec() })
            .collect(),
        text,
        children: Vec::new(),
    });
    for child in node.children() {
        if let Some(c) = add(doc, child) {
            doc[at].children.push(c);
        }
    }
    Some(at)
}

fn parse(text: &str) -> XmlDoc {
    let d = roxmltree::Document::parse(text).unwrap();
    let mut nodes = Vec::new();
    add(&mut nodes, d.root_element());
    XmlDoc { nodes }
}

fn render(events: &[XmlEvent]) -> String {
    let mut s = String::new();
    for e in events {
        match e {
            XmlEvent::Start(n, attrs) => {
                s.push('<');
                s.push_str(std::str::from_utf8(n).unwrap());
                for a in attrs {
                    s.push_str(&format!(
                        " {}=\"{}\"",
                        std::str::from_utf8(&a.name).unwrap(),
                        std::str::from_utf8(&a.value).unwrap()
                    ));
                }
                s.push('>');
            }
            XmlEvent::End => s.push_str("</>"),
            XmlEvent::Text(t) => s.push_str(std::str::from_utf8(t).unwrap()),
            XmlEvent::Comment(t) => s.push_str(&format!("<!--{}-->", std::str::from_utf8(t).unwrap())),
        }
    }
    s
}

#[test]
fn patched_element_replaces_original() {
    let o = parse(r#"<root><paper id="P1" nation="X"><field/></paper></root>"#);
    let p = parse(r#"<root><paper id="P1" nation="X"><field/><added/></paper></root>"#);
    let out = merge(&o, &p);
    assert_eq!(
        render(&out),
        r#"<root><paper id="P1" nation="X"><field></><added></></></>"#
    );
}

#[test]
fn new_patch_element_becomes_sibling() {
    let o = parse(r#"<root><group><item id="A"/></group></root>"#);
    let p = parse(r#"<root><group><item id="B"/></group></root>"#);
    let out = merge(&o, &p);
    assert_eq!(render(&out), r#"<root><group><item id="A"></><item id="B"></></></>"#);
}

#[test]
fn override_sentinel_is_dropped() {
    let o = parse(r#"<root><rules><a/></rules></root>"#);
    let p = parse(r#"<root><rules id="override"><b/></rules></root>"#);
    let out = merge(&o, &p);
    assert_eq!(render(&out), r#"<root><rules><b></></></>"#);
}

#[test]
fn text_and_comments_are_copied() {
    let o = parse(r#"<root><!--c--><x>t</x></root>"#);
    let p = parse(r#"<root/>"#);
    let out = merge(&o, &p);
    assert_eq!(render(&out), r#"<root><!--c--><x>t</></>"#);
}

#[test]
fn identities() {
    let id = |name: &str, attrs: &[(&str, &str)], matching: bool| {
        let attrs: Vec<XmlAttr> = attrs
            .iter()
            .map(|(k, v)| XmlAttr { name: k.as_bytes().to_vec(), value: v.as_bytes().to_vec() })
            .collect();
        element_identity(&name.as_bytes().to_vec(), &attrs, matching)
            .map(|v| String::from_utf8(v).unwrap())
    };
    assert_eq!(id("paper", &[("id", "P1"), ("nation", "X")], true).unwrap(), "pa#P1#X");
    assert_eq!(id("paper", &[("id", "P1")], false).unwrap(), "pa#P1#");
    assert_eq!(id("purpose", &[("val", "work")], false).unwrap(), "pr#work");
    assert_eq!(id("group", &[], true).unwrap(), "group#override");
    assert_eq!(id("group", &[], false), None);
    assert_eq!(id("item", &[("k", "1"), ("id", "A")], false).unwrap(), "item#A");
    assert_eq!(id("item", &[("a", "1"), ("b", "2")], false).unwrap(), "item[a=1,b=2]");
}

#[test]
fn index_is_path_scoped() {
    let p = parse(r#"<root><group><item id="B"/><item id="B" x="1"/></group></root>"#);
    let idx = build_index(&p);
    assert_eq!(idx.len(), 1);
    assert_eq!(idx[0].path, b"root/group".to_vec());
    assert_eq!(idx[0].id, b"item#B".to_vec());
    assert_eq!(idx[0].node, 3);
}

#[test]
fn node_is_written_verbatim() {
    let d = parse(r#"<a k="v"><b id="override">x</b></a>"#);
    let mut out = Vec::new();
    write_node(&d, 0, &mut out);
    assert_eq!(render(&out), r#"<a k="v"><b>x</></>"#);
}

#[test]
fn key_attributes_are_checked() {
    assert!(keys_present(&parse(r#"<root><paper id="P1"/><purpose val="x"/></root>"#)));
    assert!(!keys_present(&parse(r#"<root><paper nation="X"/></root>"#)));
    assert!(!keys_present(&parse(r#"<root><purpose/></root>"#)));
}

#[test]
fn double_ampersands_are_escaped_and_restored() {
    let escaped = replace_all(b"a && b &&& c", b"&&", b"&amp;&amp;");
    assert_eq!(escaped, b"a &amp;&amp; b &amp;&amp;& c".to_vec());
    assert_eq!(replace_all(&escaped, b"&amp;&amp;", b"&&"), b"a && b &&& c".to_vec());
    assert_eq!(replace_all(b"", b"&&", b"x"), Vec::<u8>::new());
}
