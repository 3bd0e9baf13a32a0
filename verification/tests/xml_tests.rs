use diet_xml::XmlBuilder;
use diet_xml::escape_xml;

#[test]
fn minimal_round_trip() {
    let mut xb = XmlBuilder::new();
    xb.set_schema("<root><item><value></value></item></root>")
        .unwrap();
    xb.set_key("root", "1").unwrap();
    xb.set_key("item", "1").unwrap();
    xb.add_element("value", "42").unwrap();
    xb.build_xml();
    assert_eq!(
        xb.xml_out(),
        "<root>\n  <item>\n    <value>42</value>\n  </item>\n</root>\n"
    );
}

#[test]
fn key_reuse_groups_children() {
    let mut xb = XmlBuilder::new();
    xb.set_schema("<root><g><c></c></g></root>").unwrap();
    xb.set_key("root", "1").unwrap();
    xb.set_key("g", "X").unwrap();
    xb.add_element("c", "v1").unwrap();
    xb.set_key("g", "X").unwrap();
    xb.add_element("c", "v2").unwrap();
    xb.build_xml();
    assert_eq!(
        xb.xml_out(),
        "<root>\n  <g>\n    <c>v1</c>\n    <c>v2</c>\n  </g>\n</root>\n"
    );
}

#[test]
fn add_element_never_dedupes() {
    let mut xb = XmlBuilder::new();
    xb.set_schema("<root><leaf></leaf></root>").unwrap();
    xb.set_key("root", "1").unwrap();
    xb.add_element("leaf", "same").unwrap();
    xb.add_element("leaf", "same").unwrap();
    xb.build_xml();
    assert_eq!(
        xb.xml_out(),
        "<root>\n  <leaf>same</leaf>\n  <leaf>same</leaf>\n</root>\n"
    );
}

#[test]
fn escaping_in_values() {
    let mut xb = XmlBuilder::new();
    xb.set_schema("<root><x></x></root>").unwrap();
    xb.set_key("root", "1").unwrap();
    xb.add_element("x", "<a&b>\"'").unwrap();
    xb.build_xml();
    assert_eq!(
        xb.xml_out(),
        "<root>\n  <x>&lt;a&amp;b&gt;&quot;&apos;</x>\n</root>\n"
    );
}

#[test]
fn escape_xml_table() {
    assert_eq!(escape_xml("<a&b>\"'"), "&lt;a&amp;b&gt;&quot;&apos;");
    assert_eq!(escape_xml(""), "");
    assert_eq!(escape_xml("plain"), "plain");
}

#[test]
fn empty_value_renders_as_empty_content() {
    let mut xb = XmlBuilder::new();
    xb.set_schema("<root><x></x></root>").unwrap();
    xb.set_key("root", "1").unwrap();
    xb.add_element("x", "").unwrap();
    xb.build_xml();
    assert_eq!(xb.xml_out(), "<root>\n  <x></x>\n</root>\n");
}

#[test]
fn clear_keys_starts_independent_chain() {
    let mut xb = XmlBuilder::new();
    xb.set_schema("<root><x></x></root>").unwrap();
    xb.set_key("root", "1").unwrap();
    xb.add_element("x", "a").unwrap();
    xb.clear_keys();
    xb.add_element("x", "b").unwrap();
    xb.build_xml();
    // The unkeyed chain sorts before the keyed one.
    assert_eq!(
        xb.xml_out(),
        "<root>\n  <x>b</x>\n</root>\n<root>\n  <x>a</x>\n</root>\n"
    );
}

#[test]
fn build_is_single_use() {
    let mut xb = XmlBuilder::new();
    xb.set_schema("<root><x></x></root>").unwrap();
    xb.set_key("root", "1").unwrap();
    xb.add_element("x", "a").unwrap();
    xb.build_xml();
    let first = xb.xml_out().to_string();
    xb.build_xml();
    assert_eq!(xb.xml_out(), first);
}

#[test]
fn deep_nesting_and_sibling_order() {
    let mut xb = XmlBuilder::new();
    xb.set_schema("<r><a><b></b></a><c></c></r>").unwrap();
    xb.set_key("r", "1").unwrap();
    xb.set_key("a", "1").unwrap();
    xb.add_element("b", "one").unwrap();
    xb.add_element("c", "two").unwrap();
    xb.add_element("b", "three").unwrap();
    xb.build_xml();
    assert_eq!(
        xb.xml_out(),
        "<r>\n  <a>\n    <b>one</b>\n    <b>three</b>\n  </a>\n  <c>two</c>\n</r>\n"
    );
}

#[test]
fn unicode_values_kept_verbatim() {
    let mut xb = XmlBuilder::new();
    xb.set_schema("<root><x></x></root>").unwrap();
    xb.set_key("root", "1").unwrap();
    xb.add_element("x", "héllo ☀ <λ>").unwrap();
    xb.build_xml();
    assert_eq!(
        xb.xml_out(),
        "<root>\n  <x>héllo ☀ &lt;λ&gt;</x>\n</root>\n"
    );
}

#[test]
fn unicode_element_names() {
    let mut xb = XmlBuilder::new();
    xb.set_schema("<wurzel><blüte></blüte></wurzel>").unwrap();
    xb.set_key("wurzel", "1").unwrap();
    xb.add_element("blüte", "v").unwrap();
    xb.build_xml();
    assert_eq!(xb.xml_out(), "<wurzel>\n  <blüte>v</blüte>\n</wurzel>\n");
}
