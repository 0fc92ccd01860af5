//! The installed packages and their users.
use reflex_tun::packages::{
    extract_tag_attr_str, extract_tag_attr_u32, parse_abx_or_xml, parse_packages_xml,
    package_list_text, NotBinaryXml, PackageManager,
};

#[test]
fn test_extract_tag_attr() {
    let line = r#"  <package name="com.example.app" userId="10123" />"#;
    assert_eq!(
        extract_tag_attr_str(line, "package", "name"),
        Some("com.example.app".to_string())
    );
    assert_eq!(extract_tag_attr_u32(line, "package", "userId"), Some(10123));
}

const XML: &str = r#"<?xml version="1.0" encoding="utf-8"?>
<packages>
  <package name="com.android.chrome" userId="10123" codePath="/data/app/chrome" />
  <package name="com.example.app" userId="10145" codePath="/data/app/example" />
  <shared-user name="android.uid.system" userId="1000" />
</packages>"#;

#[test]
fn test_parse_packages_xml() {
    let tables = parse_packages_xml(XML);
    assert_eq!(tables.packages.get_id("com.android.chrome"), Some(10123));
    assert_eq!(tables.packages.get_id("com.example.app"), Some(10145));
    assert_eq!(tables.shared_users.get_id("android.uid.system"), Some(1000));
    assert_eq!(tables.packages.get_name(10123), Some("com.android.chrome".to_string()));
    assert_eq!(tables.shared_users.get_name(1000), Some("android.uid.system".to_string()));
    assert_eq!(tables.packages.get_id("android.uid.system"), None);
    assert_eq!(tables.packages.get_name(1000), None);
}

#[test]
fn attributes_that_are_not_there() {
    let line = r#"<package name="a" userId="x" />"#;
    assert_eq!(extract_tag_attr_u32(line, "package", "userId"), None);
    assert_eq!(extract_tag_attr_str(line, "package", "codePath"), None);
    assert_eq!(extract_tag_attr_str(line, "shared-user", "name"), None);
}

#[test]
fn lists_are_read_as_text() {
    assert_eq!(parse_abx_or_xml(b"ABX\0rest"), Ok("ABX\0rest".to_string()));
    assert_eq!(parse_abx_or_xml(XML.as_bytes()), Err(NotBinaryXml));
    assert_eq!(parse_abx_or_xml(b"ABX"), Err(NotBinaryXml));
    assert_eq!(package_list_text(XML.as_bytes()), XML);
    // Bytes that are no text are replaced.
    assert_eq!(package_list_text(b"a\xffb"), "a\u{fffd}b");
}

#[test]
fn manager_answers_from_its_last_list() {
    let mut m = PackageManager::new();
    assert_eq!(m.id_by_package("com.example.app"), None);
    m.update_packages(XML.as_bytes());
    assert_eq!(m.id_by_package("com.example.app"), Some(10145));
    assert_eq!(m.id_by_shared_package("android.uid.system"), Some(1000));
    assert_eq!(m.package_by_id(10123), Some("com.android.chrome".to_string()));
    assert_eq!(
        m.resolve_packages(&["com.example.app".to_string(), "none".to_string()]),
        vec![10145]
    );
    m.load("<packages>\n</packages>");
    assert_eq!(m.id_by_package("com.example.app"), None);
}
