use std::num::IntErrorKind;

use vintf::resolve::resolve_aidl_hal_version_manifests;
use vintf::version::{aidl_hal_instance_in, aidl_hal_version_in};
use vintf::{HalXml, InterfaceXml, InvalidVersion, ManifestXml, VintfError};

const HAL: &str = "android.hardware.security.keymint";
const INTERFACE: &str = "IKeyMintDevice";

fn keymint(version: i32) -> Option<i32> {
    match version {
        1..=5 => Some(version * 100),
        100 | 200 | 300 | 400 | 500 => Some(version),
        _ => None,
    }
}

fn texts(texts: &[&str]) -> Vec<String> {
    texts.iter().map(|text| text.to_string()).collect()
}

fn hal(versions: &[&str], fqnames: &[&str]) -> HalXml {
    HalXml {
        format: Some("aidl".to_string()),
        name: Some(HAL.to_string()),
        versions: texts(versions),
        fqnames: texts(fqnames),
        interfaces: vec![],
    }
}

fn manifest(versions: &[&str]) -> ManifestXml {
    ManifestXml { hals: vec![hal(versions, &["IKeyMintDevice/default"])] }
}

fn version_of(manifest: &ManifestXml) -> Result<Option<i32>, String> {
    manifest
        .aidl_hal_version(HAL, INTERFACE, "default", &keymint)
        .map_err(|invalid| invalid.text)
}

fn number(text: &str) -> Result<Option<i32>, String> {
    manifest(&[text])
        .aidl_hal_version(HAL, INTERFACE, "default", &Some)
        .map_err(|invalid| invalid.text)
}

fn cause(text: &str) -> IntErrorKind {
    let invalid: InvalidVersion = manifest(&[text])
        .aidl_hal_version(HAL, INTERFACE, "default", &Some)
        .unwrap_err();
    invalid.cause.kind().clone()
}

#[test]
fn versions_are_signed_decimal_numbers() {
    assert_eq!(number("0"), Ok(Some(0)));
    assert_eq!(number("+4"), Ok(Some(4)));
    assert_eq!(number("-4"), Ok(Some(-4)));
    assert_eq!(number("-0"), Ok(Some(0)));
    assert_eq!(number("0000000000000012"), Ok(Some(12)));
    assert_eq!(number("2147483647"), Ok(Some(i32::MAX)));
    assert_eq!(number("-2147483648"), Ok(Some(i32::MIN)));
}

#[test]
fn other_texts_are_no_versions() {
    for text in ["", " ", "+", "-", "+-4", "4x", "x4", "4 5", "1_0", "0x4", "1.0", "\u{0664}"] {
        assert_eq!(number(text), Err(text.to_string()));
    }
    assert_eq!(number("2147483648"), Err("2147483648".to_string()));
    assert_eq!(number("-2147483649"), Err("-2147483649".to_string()));
}

#[test]
fn an_invalid_version_carries_its_cause() {
    assert_eq!(cause(" "), IntErrorKind::Empty);
    assert_eq!(cause(" four "), IntErrorKind::InvalidDigit);
    assert_eq!(cause("2147483648"), IntErrorKind::PosOverflow);
    assert_eq!(cause("-2147483649"), IntErrorKind::NegOverflow);
}

#[test]
fn white_space_around_a_version_is_trimmed() {
    assert_eq!(number(" \t\r\n4\u{b}\u{c}"), Ok(Some(4)));
    assert_eq!(number("\u{a0}\u{2003}4\u{3000}\u{85}"), Ok(Some(4)));
    assert_eq!(number("\u{200b}4"), Err("\u{200b}4".to_string()));
}

#[test]
fn an_invalid_version_keeps_its_white_space() {
    assert_eq!(version_of(&manifest(&[" four "])), Err(" four ".to_string()));
}

#[test]
fn the_first_usable_version_is_taken() {
    assert_eq!(version_of(&manifest(&["99", "4", "3"])), Ok(Some(400)));
    assert_eq!(version_of(&manifest(&["4", "four"])), Ok(Some(400)));
    assert_eq!(version_of(&manifest(&["four", "4"])), Err("four".to_string()));
    assert_eq!(version_of(&manifest(&["99", "98"])), Ok(None));
    assert_eq!(version_of(&manifest(&[])), Ok(None));
}

#[test]
fn hals_are_read_in_document_order() {
    let both = ManifestXml {
        hals: vec![
            hal(&["5"], &["IKeyMintDevice/strongbox"]),
            hal(&["99"], &["IKeyMintDevice/default"]),
            hal(&["3"], &["IKeyMintDevice/default"]),
            hal(&["four"], &["IKeyMintDevice/default"]),
        ],
    };
    assert_eq!(version_of(&both), Ok(Some(300)));
    assert_eq!(
        both.aidl_hal_version(HAL, INTERFACE, "strongbox", &keymint).unwrap(),
        Some(500)
    );
    assert_eq!(both.aidl_hal_version(HAL, INTERFACE, "foo", &keymint).unwrap(), None);
}

#[test]
fn a_hal_of_another_format_or_name_does_not_match() {
    let mut hidl = hal(&["4"], &["IKeyMintDevice/default"]);
    hidl.format = Some("hidl".to_string());
    assert!(!hidl.references_aidl_instance(HAL, INTERFACE, "default"));
    hidl.format = None;
    assert!(!hidl.references_aidl_instance(HAL, INTERFACE, "default"));
    hidl.format = Some("AIDL".to_string());
    assert!(!hidl.references_aidl_instance(HAL, INTERFACE, "default"));
    hidl.format = Some(" aidl\n".to_string());
    assert!(hidl.references_aidl_instance(HAL, INTERFACE, "default"));
    hidl.name = Some("android.hardware.foo".to_string());
    assert!(!hidl.references_aidl_instance(HAL, INTERFACE, "default"));
    hidl.name = None;
    assert!(!hidl.references_aidl_instance(HAL, INTERFACE, "default"));
    assert!(hidl.references_instance(INTERFACE, "default"));
}

#[test]
fn fqname_and_interface_forms_reference_the_same_instance() {
    let by_fqname = hal(&[], &[" IKeyMintDevice/default "]);
    let mut by_interface = hal(&[], &[]);
    by_interface.interfaces = vec![
        InterfaceXml { name: None, instances: texts(&["strongbox"]) },
        InterfaceXml {
            name: Some(" IKeyMintDevice ".to_string()),
            instances: texts(&["strongbox", " default "]),
        },
    ];
    for hal in [&by_fqname, &by_interface] {
        assert!(hal.references_instance(INTERFACE, "default"));
        assert!(!hal.references_instance(INTERFACE, "foo"));
        assert!(!hal.references_instance("IFoo", "default"));
    }
    assert!(by_interface.references_instance(INTERFACE, "strongbox"));
    assert!(!by_fqname.references_instance(INTERFACE, "strongbox"));
}

#[test]
fn a_name_is_compared_with_the_query_as_it_stands() {
    let by_fqname = hal(&[], &["IKeyMintDevice/default"]);
    assert!(!by_fqname.references_instance(" IKeyMintDevice", "default"));
    assert!(!by_fqname.references_instance(INTERFACE, "default "));
    assert!(hal(&[], &["a/b/c"]).references_instance("a/b", "c"));
    assert!(hal(&[], &["a/b/c"]).references_instance("a", "b/c"));
}

#[test]
fn declaring_needs_no_version() {
    for versions in [&[][..], &["4"][..], &["99"][..], &["four"][..]] {
        assert!(manifest(versions).declares_aidl_instance(HAL, INTERFACE, "default"));
        assert!(!manifest(versions).declares_aidl_instance(HAL, INTERFACE, "foo"));
    }
    assert!(!ManifestXml { hals: vec![] }.declares_aidl_instance(HAL, INTERFACE, "default"));
}

#[test]
fn an_undeclared_instance_has_no_version_even_if_one_is_invalid() {
    assert_eq!(
        manifest(&["four"]).aidl_hal_version(HAL, INTERFACE, "foo", &keymint).unwrap(),
        None
    );
}

fn resolved(documents: &[Option<ManifestXml>]) -> Option<i32> {
    resolve_aidl_hal_version_manifests(documents, HAL, INTERFACE, "default", &keymint)
}

fn unrelated() -> Option<ManifestXml> {
    Some(ManifestXml { hals: vec![hal(&["5"], &["IKeyMintDevice/foo"])] })
}

#[test]
fn the_first_explicit_version_of_all_texts_wins() {
    assert_eq!(
        resolved(&[
            Some(manifest(&[])),
            Some(manifest(&["99"])),
            Some(manifest(&["four"])),
            Some(manifest(&["3"])),
            Some(manifest(&["4"])),
        ]),
        Some(300)
    );
}

#[test]
fn resolution_passes_over_versions_that_are_no_number() {
    assert_eq!(resolved(&[Some(manifest(&["four", "4"]))]), Some(400));
    assert_eq!(resolved(&[Some(manifest(&["2147483648", "99", "", "3", "4"]))]), Some(300));
    assert_eq!(resolved(&[Some(manifest(&["four", "5"])), Some(manifest(&["4"]))]), Some(500));
    assert_eq!(resolved(&[Some(manifest(&["four", "99"])), Some(manifest(&["4"]))]), Some(400));
}

#[test]
fn the_search_agrees_with_reading_where_no_version_is_invalid() {
    for versions in [&["99", "4", "3"][..], &["4", "four"][..], &["99", "98"][..], &[][..]] {
        let manifest = manifest(versions);
        assert_eq!(
            Ok(manifest.usable_aidl_hal_version(HAL, INTERFACE, "default", &keymint)),
            version_of(&manifest)
        );
    }
    let invalid = manifest(&["four", "4"]);
    assert_eq!(
        invalid.usable_aidl_hal_version(HAL, INTERFACE, "default", &keymint),
        Some(400)
    );
    assert_eq!(invalid.usable_aidl_hal_version(HAL, INTERFACE, "foo", &keymint), None);
}

#[test]
fn the_search_goes_on_from_hal_to_hal() {
    let both = ManifestXml {
        hals: vec![
            hal(&["5"], &["IKeyMintDevice/strongbox"]),
            hal(&["four"], &["IKeyMintDevice/default"]),
            hal(&["99", " 3 "], &["IKeyMintDevice/default"]),
            hal(&["4"], &["IKeyMintDevice/default"]),
        ],
    };
    assert_eq!(
        both.usable_aidl_hal_version(HAL, INTERFACE, "default", &keymint),
        Some(300)
    );
}

#[test]
fn a_declared_instance_without_a_usable_version_has_the_omitted_one() {
    assert_eq!(resolved(&[Some(manifest(&[]))]), Some(100));
    assert_eq!(resolved(&[Some(manifest(&["99"])), Some(manifest(&["four"]))]), Some(100));
    assert_eq!(
        resolve_aidl_hal_version_manifests(
            &[Some(manifest(&[]))],
            HAL,
            INTERFACE,
            "default",
            &|version: i32| if version > 1 { Some(version) } else { None },
        ),
        None
    );
}

#[test]
fn unrelated_and_malformed_texts_change_nothing() {
    assert_eq!(resolved(&[None, unrelated()]), None);
    assert_eq!(resolved(&[None, Some(manifest(&["4"])), unrelated()]), Some(400));
    assert_eq!(resolved(&[unrelated(), Some(manifest(&[])), None]), Some(100));
    assert_eq!(resolved(&[]), None);
}

#[test]
fn a_normalization_may_change_its_mind() {
    let calls = std::cell::Cell::new(0);
    let third_time = |version: i32| {
        calls.set(calls.get() + 1);
        if calls.get() >= 3 {
            Some(version)
        } else {
            None
        }
    };
    let read = |versions: &[&str]| {
        calls.set(0);
        resolve_aidl_hal_version_manifests(
            &[Some(manifest(versions))],
            HAL,
            INTERFACE,
            "default",
            &third_time,
        )
    };
    assert_eq!(read(&["7", "7", "7"]), Some(7));
    assert_eq!(read(&["7", "7"]), Some(1));
    assert_eq!(read(&["7"]), None);
}

#[test]
fn a_document_or_its_error_gives_the_answer() {
    let good: Result<ManifestXml, u8> = Ok(manifest(&["4"]));
    assert!(matches!(
        aidl_hal_version_in(good, HAL, INTERFACE, "default", &keymint),
        Ok(Some(400))
    ));
    let invalid: Result<ManifestXml, u8> = Ok(manifest(&["four"]));
    assert!(matches!(
        aidl_hal_version_in(invalid, HAL, INTERFACE, "default", &keymint),
        Err(VintfError::InvalidVersion(invalid)) if invalid.text == "four"
    ));
    let bad: Result<ManifestXml, u8> = Err(7);
    assert!(matches!(
        aidl_hal_version_in(bad, HAL, INTERFACE, "default", &keymint),
        Err(VintfError::Deserialize(7))
    ));
    let good: Result<ManifestXml, u8> = Ok(manifest(&[]));
    assert!(matches!(aidl_hal_instance_in(good, HAL, INTERFACE, "default"), Ok(true)));
    let bad: Result<ManifestXml, u8> = Err(7);
    assert!(matches!(
        aidl_hal_instance_in(bad, HAL, INTERFACE, "default"),
        Err(VintfError::Deserialize(7))
    ));
}

#[test]
fn messages_say_what_went_wrong() {
    let deserialize: VintfError<u8> = VintfError::Deserialize(7);
    assert_eq!(deserialize.message(), "failed to deserialize VINTF XML");
    let invalid: VintfError<u8> = VintfError::InvalidVersion(InvalidVersion {
        text: " \"4\"\n".to_string(),
        cause: "\"4\"".parse::<i32>().unwrap_err(),
    });
    assert_eq!(invalid.message(), "invalid VINTF version \" \\\"4\\\"\\n\"");
}
