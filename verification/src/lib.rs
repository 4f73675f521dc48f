//! Versions of AIDL HALs from the VINTF manifests of an Android device.
//!
//! - [`manifest`]: what a manifest says, and which HAL instances it declares.
//! - [`version`]: the version that one manifest states for an instance.
//! - [`resolve`]: the version that all manifests together come to.
//! - [`paths`]: where the manifests lie.
//! - [`text`]: trimming, and decimal numbers.
//! - [`laws`]: what holds of all of this together.
//! - [`behaviour`]: what each function gives back for what it is handed.
//! - [`listing`]: which paths are listed for which directory entries.
//!
//! The functions that take XML also take the function that deserializes it, so
//! that the XML schema lives with the serde types that describe it.

pub mod behaviour;
pub mod laws;
pub mod listing;
pub mod manifest;
pub mod paths;
pub mod resolve;
pub mod text;
pub mod version;

pub use manifest::{HalXml, InterfaceXml, ManifestXml};
pub use paths::manifest_paths;
pub use resolve::{resolve_aidl_hal_version_xmls, AIDL_OMITTED_VERSION};
pub use version::{
    parse_aidl_hal_instance_xml, parse_aidl_hal_version_xml, InvalidVersion, VintfError,
};
