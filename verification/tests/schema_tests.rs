use diet_xml::schema::XmlSchema;
use diet_xml::schema::XmlSchemaError;
use diet_xml::validate_tag_check_if_opening;

#[test]
fn set_schema() {
    let s = "<root> </root>";
    let mut schema = XmlSchema::new();
    schema.set_schema(s);
    // Test that it was set correctly
    assert_eq!(schema.raw_string, s);
    let _ = schema.parse_schema();
}

#[test]
fn check_tag_validation() {
    assert_eq!(validate_tag_check_if_opening("validtag"), Ok(true));
    assert_eq!(validate_tag_check_if_opening("valid-tag"), Ok(true));
    assert_eq!(validate_tag_check_if_opening("/validclosing"), Ok(false));
    assert_eq!(validate_tag_check_if_opening("/valid-closing"), Ok(false));
    assert_eq!(validate_tag_check_if_opening("/valid-clo123sing"), Ok(false));

    assert!(matches!(
        validate_tag_check_if_opening(""),
        Err(XmlSchemaError::SchemaTxtInvalid(_))
    ));
    assert!(matches!(
        validate_tag_check_if_opening("//invaliddoubleclose"),
        Err(XmlSchemaError::InvalidTag(_))
    ));

    let l = "".to_string().len();
    println!("{}", l);
}

#[test]
fn check_duplicate_detected() {
    let s = "<root> <field1> </field1> <1> <2> <3> <7> </7> <4> <5> </5> </4> </3> </2> </1> </root>";
    let mut schema = XmlSchema::new();
    schema.set_schema(s);
    // Test that it was set correctly
    let _ = schema.parse_schema();
    for r in &schema.element_names {
        println!("{}", r.to_string())
    }

    for r in &schema.element_position {
        println!("{:?}", r)
    }
}

#[test]
fn schema_error_variants() {
    let mut xb = diet_xml::XmlBuilder::new();
    assert!(matches!(
        xb.set_schema(""),
        Err(XmlSchemaError::SchemaTxtInvalid(_))
    ));
    assert!(matches!(
        xb.set_schema("</a>"),
        Err(XmlSchemaError::FirstTagIsClosing(_))
    ));
    assert!(matches!(
        xb.set_schema("<a!b></a!b>"),
        Err(XmlSchemaError::InvalidTag(_))
    ));
    assert!(matches!(
        xb.set_schema("<a></a>x"),
        Err(XmlSchemaError::InvalidTag(_))
    ));
    assert!(matches!(
        xb.set_schema("<a><b</a>"),
        Err(XmlSchemaError::InvalidTag(_))
    ));
    assert!(matches!(
        xb.set_schema("<>"),
        Err(XmlSchemaError::SchemaTxtInvalid(_))
    ));
}

#[test]
fn schema_mismatch_names_both_tags() {
    let mut xb = diet_xml::XmlBuilder::new();
    match xb.set_schema("<a><b></a></b>") {
        Err(XmlSchemaError::TagMismatch(msg)) => {
            assert_eq!(msg, "Closing tag /a doesn't match last opening tag b");
        }
        other => panic!("expected a tag mismatch, got {:?}", other),
    }
}

#[test]
fn schema_duplicate_name() {
    let mut xb = diet_xml::XmlBuilder::new();
    assert!(matches!(
        xb.set_schema("<a></a><a></a>"),
        Err(XmlSchemaError::DuplicateElementName(_))
    ));
}

#[test]
fn closing_name_first_character_rules() {
    assert!(matches!(
        validate_tag_check_if_opening("/-x"),
        Err(XmlSchemaError::InvalidTag(_))
    ));
    assert!(matches!(
        validate_tag_check_if_opening("/_x"),
        Err(XmlSchemaError::InvalidTag(_))
    ));
    assert!(matches!(
        validate_tag_check_if_opening("/.x"),
        Err(XmlSchemaError::InvalidTag(_))
    ));
    assert_eq!(validate_tag_check_if_opening("/x-"), Ok(false));
    let mut xb = diet_xml::XmlBuilder::new();
    assert!(matches!(
        xb.set_schema("<a></-a>"),
        Err(XmlSchemaError::InvalidTag(_))
    ));
}
