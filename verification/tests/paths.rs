use vintf::paths::{has_xml_extension, manifest_paths};

fn names(names: &[&str]) -> Option<Vec<Vec<u8>>> {
    Some(names.iter().map(|name| name.as_bytes().to_vec()).collect())
}

fn paths(paths: &[&str]) -> Vec<Vec<u8>> {
    paths.iter().map(|path| path.as_bytes().to_vec()).collect()
}

#[test]
fn only_names_with_the_extension_are_fragments() {
    for name in ["a.xml", "a.b.xml", "..xml", " .xml"] {
        assert!(has_xml_extension(&name.as_bytes().to_vec()));
    }
    for name in ["", "xml", ".xml", "axml", "a.XML", "a.xml~", "a.xml.bak", "a.xm"] {
        assert!(!has_xml_extension(&name.as_bytes().to_vec()));
    }
    assert!(has_xml_extension(&b"\xff.xml".to_vec()));
}

#[test]
fn unreadable_directories_leave_the_fixed_manifests() {
    assert_eq!(
        manifest_paths(&[None, None, None, None, None]),
        paths(&[
            "/system/etc/vintf/manifest.xml",
            "/system_ext/etc/vintf/manifest.xml",
            "/product/etc/vintf/manifest.xml",
            "/vendor/etc/vintf/manifest.xml",
            "/odm/etc/vintf/manifest.xml",
        ])
    );
}

#[test]
fn fragments_come_first_in_directory_order() {
    assert_eq!(
        manifest_paths(&[
            names(&["b.xml", "README", "a.xml"]),
            names(&["s.xml"]),
            names(&[]),
            None,
            names(&["c.xml", ".xml"]),
        ]),
        paths(&[
            "/system/etc/vintf/manifest/b.xml",
            "/system/etc/vintf/manifest/a.xml",
            "/system_ext/etc/vintf/manifest/s.xml",
            "/odm/etc/vintf/manifest/c.xml",
            "/system/etc/vintf/manifest.xml",
            "/system_ext/etc/vintf/manifest.xml",
            "/product/etc/vintf/manifest.xml",
            "/vendor/etc/vintf/manifest.xml",
            "/odm/etc/vintf/manifest.xml",
        ])
    );
}
