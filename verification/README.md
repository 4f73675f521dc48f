# vintf

Resolves the version of an AIDL HAL instance from the VINTF manifests of an
Android device.

The first usable `<version>` that the manifests state for the instance wins; one
that is no number, or that the caller does not support, is passed over. An
instance that is declared without a usable version has the AOSP default for an
omitted version. An instance that no manifest declares has none. Manifests that
cannot be read as XML, and HALs that do not concern the instance, are ignored.

- `src/` is the library, verified with Verus. It trims and compares texts, reads
  version numbers, decides which HALs match and which version wins, and says
  which paths hold manifests. `src/laws.rs` states what holds of it as a whole.
- `app/` holds the serde types of the XML schema, lists directories, and offers
  the library's functions over `quick_xml` and `anyhow`.
- `tests/` runs the library, on values and on XML.
