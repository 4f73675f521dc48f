use std::fmt;

use serde::de::{Deserialize, Deserializer, Error, IgnoredAny, MapAccess, Visitor};
use vintf::{
    parse_aidl_hal_instance_xml, parse_aidl_hal_version_xml, resolve_aidl_hal_version_xmls, HalXml,
    InterfaceXml, ManifestXml, VintfError, AIDL_OMITTED_VERSION,
};

struct ManifestDocument(ManifestXml);

struct HalElement(HalXml);

struct InterfaceElement(InterfaceXml);

struct ManifestVisitor;

struct HalVisitor;

struct InterfaceVisitor;

/// Takes the value of a field that may occur once.
fn once<T, E: Error>(field: &mut Option<T>, name: &'static str, value: T) -> Result<(), E> {
    if field.is_some() {
        return Err(E::duplicate_field(name));
    }
    *field = Some(value);
    Ok(())
}

impl<'de> Visitor<'de> for ManifestVisitor {
    type Value = ManifestDocument;

    fn expecting(&self, f: &mut fmt::Formatter<'_>) -> fmt::Result {
        f.write_str("a manifest")
    }

    fn visit_map<A: MapAccess<'de>>(self, mut map: A) -> Result<ManifestDocument, A::Error> {
        let mut hals: Option<Vec<HalElement>> = None;
        while let Some(key) = map.next_key::<String>()? {
            match key.as_str() {
                "hal" => once(&mut hals, "hal", map.next_value()?)?,
                _ => {
                    map.next_value::<IgnoredAny>()?;
                }
            }
        }
        Ok(ManifestDocument(ManifestXml {
            hals: hals.unwrap_or_default().into_iter().map(|hal| hal.0).collect(),
        }))
    }
}

impl<'de> Visitor<'de> for HalVisitor {
    type Value = HalElement;

    fn expecting(&self, f: &mut fmt::Formatter<'_>) -> fmt::Result {
        f.write_str("a hal element")
    }

    fn visit_map<A: MapAccess<'de>>(self, mut map: A) -> Result<HalElement, A::Error> {
        let mut format: Option<Option<String>> = None;
        let mut name: Option<Option<String>> = None;
        let mut versions: Option<Vec<String>> = None;
        let mut fqnames: Option<Vec<String>> = None;
        let mut interfaces: Option<Vec<InterfaceElement>> = None;
        while let Some(key) = map.next_key::<String>()? {
            match key.as_str() {
                "@format" => once(&mut format, "@format", map.next_value()?)?,
                "name" => once(&mut name, "name", map.next_value()?)?,
                "version" => once(&mut versions, "version", map.next_value()?)?,
                "fqname" => once(&mut fqnames, "fqname", map.next_value()?)?,
                "interface" => once(&mut interfaces, "interface", map.next_value()?)?,
                _ => {
                    map.next_value::<IgnoredAny>()?;
                }
            }
        }
        Ok(HalElement(HalXml {
            format: format.unwrap_or_default(),
            name: name.unwrap_or_default(),
            versions: versions.unwrap_or_default(),
            fqnames: fqnames.unwrap_or_default(),
            interfaces: interfaces
                .unwrap_or_default()
                .into_iter()
                .map(|interface| interface.0)
                .collect(),
        }))
    }
}

impl<'de> Visitor<'de> for InterfaceVisitor {
    type Value = InterfaceElement;

    fn expecting(&self, f: &mut fmt::Formatter<'_>) -> fmt::Result {
        f.write_str("an interface element")
    }

    fn visit_map<A: MapAccess<'de>>(self, mut map: A) -> Result<InterfaceElement, A::Error> {
        let mut name: Option<Option<String>> = None;
        let mut instances: Option<Vec<String>> = None;
        while let Some(key) = map.next_key::<String>()? {
            match key.as_str() {
                "name" => once(&mut name, "name", map.next_value()?)?,
                "instance" => once(&mut instances, "instance", map.next_value()?)?,
                _ => {
                    map.next_value::<IgnoredAny>()?;
                }
            }
        }
        Ok(InterfaceElement(InterfaceXml {
            name: name.unwrap_or_default(),
            instances: instances.unwrap_or_default(),
        }))
    }
}

impl<'de> Deserialize<'de> for ManifestDocument {
    fn deserialize<D: Deserializer<'de>>(deserializer: D) -> Result<Self, D::Error> {
        deserializer.deserialize_struct("ManifestXml", &["hal"], ManifestVisitor)
    }
}

impl<'de> Deserialize<'de> for HalElement {
    fn deserialize<D: Deserializer<'de>>(deserializer: D) -> Result<Self, D::Error> {
        const FIELDS: &[&str] = &["@format", "name", "version", "fqname", "interface"];
        deserializer.deserialize_struct("HalXml", FIELDS, HalVisitor)
    }
}

impl<'de> Deserialize<'de> for InterfaceElement {
    fn deserialize<D: Deserializer<'de>>(deserializer: D) -> Result<Self, D::Error> {
        deserializer.deserialize_struct("InterfaceXml", &["name", "instance"], InterfaceVisitor)
    }
}

fn deserialize(xml: &str) -> Result<ManifestXml, quick_xml::DeError> {
    quick_xml::de::from_str::<ManifestDocument>(xml).map(|document| document.0)
}

const KEYMINT_HAL_NAME: &str = "android.hardware.security.keymint";
const KEYMINT_DEVICE_INTERFACE: &str = "IKeyMintDevice";
const KEYSTORE2_HAL_NAME: &str = "android.system.keystore2";
const KEYSTORE2_SERVICE_INTERFACE: &str = "IKeystoreService";

fn normalize_keymint_test_version(version: i32) -> Option<i32> {
    match version {
        1..=5 => Some(version * 100),
        100 | 200 | 300 | 400 | 500 => Some(version),
        _ => None,
    }
}

fn normalize_keystore2_test_version(version: i32) -> Option<i32> {
    (1..=5).contains(&version).then_some(version)
}

#[test]
fn parser_matches_fqname_and_interface_forms() {
    let xml = r#"
<manifest version="1.0" type="device">
    <hal format="aidl">
        <name>android.hardware.security.keymint</name>
        <version>4</version>
        <fqname>IKeyMintDevice/default</fqname>
    </hal>
    <hal format="aidl">
        <name>android.hardware.security.keymint</name>
        <version>3</version>
        <interface>
            <name>IKeyMintDevice</name>
            <instance>strongbox</instance>
        </interface>
    </hal>
</manifest>
"#;

    assert_eq!(
        parse_aidl_hal_version_xml(
            xml,
            KEYMINT_HAL_NAME,
            KEYMINT_DEVICE_INTERFACE,
            "default",
            normalize_keymint_test_version,
            deserialize,
        )
        .unwrap(),
        Some(400)
    );
    assert_eq!(
        parse_aidl_hal_version_xml(
            xml,
            KEYMINT_HAL_NAME,
            KEYMINT_DEVICE_INTERFACE,
            "strongbox",
            normalize_keymint_test_version,
            deserialize,
        )
        .unwrap(),
        Some(300)
    );
    assert!(parse_aidl_hal_instance_xml(
        xml,
        KEYMINT_HAL_NAME,
        KEYMINT_DEVICE_INTERFACE,
        "default",
        deserialize,
    )
    .unwrap());
    assert!(parse_aidl_hal_instance_xml(
        xml,
        KEYMINT_HAL_NAME,
        KEYMINT_DEVICE_INTERFACE,
        "strongbox",
        deserialize,
    )
    .unwrap());
    assert!(!parse_aidl_hal_instance_xml(
        xml,
        KEYMINT_HAL_NAME,
        KEYMINT_DEVICE_INTERFACE,
        "foo",
        deserialize,
    )
    .unwrap());
}

#[test]
fn instance_parser_does_not_require_version() {
    let xml = r#"
<manifest version="1.0" type="device">
    <hal format="aidl">
        <name>android.hardware.security.keymint</name>
        <interface>
            <name>IKeyMintDevice</name>
            <instance>strongbox</instance>
        </interface>
    </hal>
</manifest>
"#;

    assert!(parse_aidl_hal_instance_xml(
        xml,
        KEYMINT_HAL_NAME,
        KEYMINT_DEVICE_INTERFACE,
        "strongbox",
        deserialize,
    )
    .unwrap());
}

#[test]
fn parser_ignores_unrelated_hals_and_rejects_malformed_xml() {
    let unrelated = r#"
<manifest version="1.0" type="device">
    <hal format="aidl">
        <name>android.hardware.foo</name>
        <version>4</version>
        <fqname>IKeyMintDevice/default</fqname>
    </hal>
</manifest>
"#;

    assert_eq!(
        parse_aidl_hal_version_xml(
            unrelated,
            KEYMINT_HAL_NAME,
            KEYMINT_DEVICE_INTERFACE,
            "default",
            normalize_keymint_test_version,
            deserialize,
        )
        .unwrap(),
        None
    );
    assert!(parse_aidl_hal_version_xml(
        "<manifest>",
        KEYMINT_HAL_NAME,
        KEYMINT_DEVICE_INTERFACE,
        "default",
        normalize_keymint_test_version,
        deserialize,
    )
    .is_err());
}

#[test]
fn unsupported_versions_are_ignored() {
    let xml = r#"
<manifest version="1.0" type="framework">
    <hal format="aidl">
        <name>android.system.keystore2</name>
        <version>99</version>
        <fqname>IKeystoreService/default</fqname>
    </hal>
</manifest>
"#;

    assert_eq!(
        parse_aidl_hal_version_xml(
            xml,
            KEYSTORE2_HAL_NAME,
            KEYSTORE2_SERVICE_INTERFACE,
            "default",
            normalize_keystore2_test_version,
            deserialize,
        )
        .unwrap(),
        None
    );
}

#[test]
fn omitted_aidl_version_on_declared_instance_is_effective_v1() {
    let qti_default = r#"
<manifest version="1.0" type="device">
    <hal format="aidl">
        <name>android.hardware.security.keymint</name>
        <fqname>IKeyMintDevice/default</fqname>
        <fqname>IRemotelyProvisionedComponent/default</fqname>
    </hal>
</manifest>
"#;
    let qti_strongbox = r#"
<manifest version="1.0" type="device">
    <hal format="aidl">
        <name>android.hardware.security.keymint</name>
        <interface>
            <name>IKeyMintDevice</name>
            <instance>strongbox</instance>
        </interface>
    </hal>
</manifest>
"#;

    assert_eq!(
        parse_aidl_hal_version_xml(
            qti_default,
            KEYMINT_HAL_NAME,
            KEYMINT_DEVICE_INTERFACE,
            "default",
            normalize_keymint_test_version,
            deserialize,
        )
        .unwrap(),
        None
    );
    assert_eq!(
        resolve_aidl_hal_version_xmls(
            &[qti_default],
            KEYMINT_HAL_NAME,
            KEYMINT_DEVICE_INTERFACE,
            "default",
            normalize_keymint_test_version,
            deserialize,
        ),
        normalize_keymint_test_version(AIDL_OMITTED_VERSION)
    );
    assert_eq!(
        resolve_aidl_hal_version_xmls(
            &[qti_strongbox],
            KEYMINT_HAL_NAME,
            KEYMINT_DEVICE_INTERFACE,
            "strongbox",
            normalize_keymint_test_version,
            deserialize,
        ),
        normalize_keymint_test_version(AIDL_OMITTED_VERSION)
    );
    assert_eq!(
        resolve_aidl_hal_version_xmls(
            &[qti_default],
            KEYMINT_HAL_NAME,
            KEYMINT_DEVICE_INTERFACE,
            "strongbox",
            normalize_keymint_test_version,
            deserialize,
        ),
        None
    );
}

#[test]
fn explicit_usable_version_wins_over_omitted_default() {
    let omitted = r#"
<manifest version="1.0" type="device">
    <hal format="aidl">
        <name>android.hardware.security.keymint</name>
        <fqname>IKeyMintDevice/default</fqname>
    </hal>
</manifest>
"#;
    let explicit = r#"
<manifest version="1.0" type="device">
    <hal format="aidl">
        <name>android.hardware.security.keymint</name>
        <version>4</version>
        <fqname>IKeyMintDevice/default</fqname>
    </hal>
</manifest>
"#;
    let unusable = r#"
<manifest version="1.0" type="device">
    <hal format="aidl">
        <name>android.hardware.security.keymint</name>
        <version>99</version>
        <fqname>IKeyMintDevice/default</fqname>
    </hal>
</manifest>
"#;

    assert_eq!(
        resolve_aidl_hal_version_xmls(
            &[explicit],
            KEYMINT_HAL_NAME,
            KEYMINT_DEVICE_INTERFACE,
            "default",
            normalize_keymint_test_version,
            deserialize,
        ),
        normalize_keymint_test_version(4)
    );
    assert_eq!(
        resolve_aidl_hal_version_xmls(
            &[omitted, explicit],
            KEYMINT_HAL_NAME,
            KEYMINT_DEVICE_INTERFACE,
            "default",
            normalize_keymint_test_version,
            deserialize,
        ),
        normalize_keymint_test_version(4)
    );
    assert_eq!(
        resolve_aidl_hal_version_xmls(
            &[explicit, omitted],
            KEYMINT_HAL_NAME,
            KEYMINT_DEVICE_INTERFACE,
            "default",
            normalize_keymint_test_version,
            deserialize,
        ),
        normalize_keymint_test_version(4)
    );
    assert_eq!(
        resolve_aidl_hal_version_xmls(
            &[unusable],
            KEYMINT_HAL_NAME,
            KEYMINT_DEVICE_INTERFACE,
            "default",
            normalize_keymint_test_version,
            deserialize,
        ),
        normalize_keymint_test_version(AIDL_OMITTED_VERSION)
    );
}

#[test]
fn no_matching_instance_is_absent_not_omitted_default() {
    let unrelated = r#"
<manifest version="1.0" type="device">
    <hal format="aidl">
        <name>android.hardware.foo</name>
        <version>4</version>
        <fqname>IKeyMintDevice/default</fqname>
    </hal>
</manifest>
"#;

    assert_eq!(
        resolve_aidl_hal_version_xmls(
            &[unrelated],
            KEYMINT_HAL_NAME,
            KEYMINT_DEVICE_INTERFACE,
            "default",
            normalize_keymint_test_version,
            deserialize,
        ),
        None
    );
    assert_eq!(
        resolve_aidl_hal_version_xmls(
            &[],
            KEYMINT_HAL_NAME,
            KEYMINT_DEVICE_INTERFACE,
            "default",
            normalize_keymint_test_version,
            deserialize,
        ),
        None
    );
    assert_eq!(
        resolve_aidl_hal_version_xmls(
            &["<manifest>", unrelated],
            KEYMINT_HAL_NAME,
            KEYMINT_DEVICE_INTERFACE,
            "default",
            normalize_keymint_test_version,
            deserialize,
        ),
        None
    );
}

#[test]
fn xml_texts_are_trimmed_before_they_are_compared() {
    let xml = r#"
<manifest version="1.0" type="device">
    <hal format=" aidl ">
        <name>
            android.hardware.security.keymint
        </name>
        <version> 4 </version>
        <interface>
            <name> IKeyMintDevice </name>
            <instance> default </instance>
        </interface>
    </hal>
</manifest>
"#;

    assert_eq!(
        parse_aidl_hal_version_xml(
            xml,
            KEYMINT_HAL_NAME,
            KEYMINT_DEVICE_INTERFACE,
            "default",
            normalize_keymint_test_version,
            deserialize,
        )
        .unwrap(),
        Some(400)
    );
}

#[test]
fn invalid_version_is_an_error_of_the_text_and_passed_over_by_resolution() {
    let invalid = r#"
<manifest version="1.0" type="device">
    <hal format="aidl">
        <name>android.hardware.security.keymint</name>
        <version>99</version>
        <version>four</version>
        <version>4</version>
        <fqname>IKeyMintDevice/default</fqname>
    </hal>
</manifest>
"#;

    let error = parse_aidl_hal_version_xml(
        invalid,
        KEYMINT_HAL_NAME,
        KEYMINT_DEVICE_INTERFACE,
        "default",
        normalize_keymint_test_version,
        deserialize,
    )
    .unwrap_err();
    assert!(matches!(&error, VintfError::InvalidVersion(invalid) if invalid.text == "four"));
    assert_eq!(error.message(), "invalid VINTF version \"four\"");
    assert_eq!(
        resolve_aidl_hal_version_xmls(
            &[invalid],
            KEYMINT_HAL_NAME,
            KEYMINT_DEVICE_INTERFACE,
            "default",
            normalize_keymint_test_version,
            deserialize,
        ),
        Some(400)
    );
}

#[test]
fn malformed_xml_is_the_deserializers_error() {
    let version = parse_aidl_hal_version_xml(
        "<manifest>",
        KEYMINT_HAL_NAME,
        KEYMINT_DEVICE_INTERFACE,
        "default",
        normalize_keymint_test_version,
        deserialize,
    )
    .unwrap_err();
    assert!(matches!(&version, VintfError::Deserialize(_)));
    assert_eq!(version.message(), "failed to deserialize VINTF XML");

    let instance = parse_aidl_hal_instance_xml(
        "<manifest>",
        KEYMINT_HAL_NAME,
        KEYMINT_DEVICE_INTERFACE,
        "default",
        deserialize,
    )
    .unwrap_err();
    assert!(matches!(&instance, VintfError::Deserialize(_)));
}

#[test]
fn malformed_xml_beside_an_explicit_version_is_ignored() {
    let explicit = r#"
<manifest version="1.0" type="device">
    <hal format="aidl">
        <name>android.hardware.security.keymint</name>
        <version>300</version>
        <fqname>IKeyMintDevice/default</fqname>
    </hal>
</manifest>
"#;

    assert_eq!(
        resolve_aidl_hal_version_xmls(
            &["<manifest>", explicit, "<manifest>"],
            KEYMINT_HAL_NAME,
            KEYMINT_DEVICE_INTERFACE,
            "default",
            normalize_keymint_test_version,
            deserialize,
        ),
        Some(300)
    );
}

#[test]
fn usable_version_behind_one_that_is_no_number_wins() {
    let xml = "<manifest><hal format='aidl'><name>k</name><version>abc</version>\
               <version>4</version><fqname>I/d</fqname></hal></manifest>";

    assert_eq!(
        resolve_aidl_hal_version_xmls(
            &[xml],
            "k",
            "I",
            "d",
            normalize_keymint_test_version,
            deserialize,
        ),
        Some(400)
    );
}

#[test]
fn only_versions_that_are_no_number_leave_the_omitted_one() {
    let xml = "<manifest><hal format='aidl'><name>k</name><version>abc</version>\
               <version>2147483648</version><fqname>I/d</fqname></hal></manifest>";

    assert_eq!(
        resolve_aidl_hal_version_xmls(
            &[xml],
            "k",
            "I",
            "d",
            normalize_keymint_test_version,
            deserialize,
        ),
        Some(100)
    );
}
