use diet_xml::XmlBuilder;

#[test]
fn test_set_key() {
    let mut xb = XmlBuilder::new();
    xb.set_schema(
        "<root>
                    <g1></g1>
                    <g2><g3><g4></g4></g3></g2></root>",
    )
    .unwrap();

    for nm in &xb.schema.element_names {
        println!("{:?}", nm);
    }
    xb.set_key("g2", "1").unwrap();
    println!("{:?}", xb.current_key);
    xb.set_key("g2", "1").unwrap();
    println!("{:?}", xb.current_key);
    xb.set_key("g2", "2").unwrap();
    println!("{:?}", xb.current_key);

    xb.set_key("g1", "1").unwrap();
    println!("{:?}", xb.current_key);
    xb.set_key("g1", "1").unwrap();
    println!("{:?}", xb.current_key);
    xb.set_key("g1", "2").unwrap();
    println!("{:?}", xb.current_key);

    xb.set_key("g2", "3").unwrap();
    println!("{:?}", xb.current_key);
    xb.set_key("g2", "4").unwrap();
    println!("{:?}", xb.current_key);

    xb.set_key("g4", "1").unwrap();
    println!("{:?}", xb.current_key);

    xb.set_key("root", "0").unwrap();
    println!("{:?}", xb.current_key);

    xb.add_element("g4", "999").unwrap();
    println!("{:?}", xb.elements[1].position);

    xb.clear_keys();
    println!("{:?}", xb.current_key);

    xb.build_xml();
}

#[test]
fn set_key_reuses_and_allocates() {
    let mut xb = XmlBuilder::new();
    xb.set_schema("<root><g></g></root>").unwrap();
    let a = xb.set_key("g", "X").unwrap();
    let b = xb.set_key("g", "X").unwrap();
    let c = xb.set_key("g", "Y").unwrap();
    assert_eq!(a.no_key, b.no_key);
    assert!(c.no_key != a.no_key);
    assert_eq!(a.no_element, b.no_element);
}

#[test]
fn unknown_element_rejected() {
    let mut xb = XmlBuilder::new();
    xb.set_schema("<root><item></item></root>").unwrap();
    let before = xb.current_key.clone();
    let r = xb.set_key("doesNotExist", "1");
    assert_eq!(r, Err(diet_xml::XmlLookupError::UnknownElementName));
    assert_eq!(xb.current_key, before);
    let r2 = xb.add_element("doesNotExist", "1");
    assert_eq!(r2, Err(diet_xml::XmlLookupError::UnknownElementName));
    assert_eq!(xb.current_key, before);
}

#[test]
fn operations_fail_without_schema() {
    let mut xb = XmlBuilder::new();
    assert_eq!(
        xb.set_key("root", "1"),
        Err(diet_xml::XmlLookupError::UnknownElementName)
    );
    let mut xb2 = XmlBuilder::new();
    assert!(xb2.set_schema("<a><b></a></b>").is_err());
    assert_eq!(
        xb2.set_key("a", "1"),
        Err(diet_xml::XmlLookupError::UnknownElementName)
    );
}

#[test]
fn attributes_set_once() {
    let mut xb = XmlBuilder::new();
    xb.set_schema("<root><leaf></leaf></root>").unwrap();
    xb.set_key("root", "1").unwrap();
    let h = xb.add_element("leaf", "v").unwrap();
    assert_eq!(h.attributes(&mut xb, &["a", "1"]), Ok(()));
    assert_eq!(h.attributes(&mut xb, &["a", "1"]), Ok(()));
    assert_eq!(
        h.attributes(&mut xb, &["a", "2"]),
        Err(diet_xml::XmlAttributeError::ConflictingAttributesForSameInstance)
    );
    assert_eq!(
        h.attributes(&mut xb, &["a"]),
        Err(diet_xml::XmlAttributeError::OddPairCount)
    );
    xb.build_xml();
    assert_eq!(
        xb.xml_out(),
        "<root>\n  <leaf a=\"1\">v</leaf>\n</root>\n"
    );
}
