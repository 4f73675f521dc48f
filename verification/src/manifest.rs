//! The part of a VINTF manifest that decides which HAL instances it declares.

use vstd::prelude::*;
use vstd::string::*;

use crate::text;

verus! {

/// What an `<interface>` element says.
pub struct Interface {
    pub name: Option<Seq<char>>,
    pub instances: Seq<Seq<char>>,
}

/// What a `<hal>` element says.
pub struct Hal {
    pub format: Option<Seq<char>>,
    pub name: Option<Seq<char>>,
    pub versions: Seq<Seq<char>>,
    pub fqnames: Seq<Seq<char>>,
    pub interfaces: Seq<Interface>,
}

/// The instance that a query asks for: `interface/instance` of the HAL package
/// `hal_name`.
pub struct Query {
    pub hal_name: Seq<char>,
    pub interface: Seq<char>,
    pub instance: Seq<char>,
}

/// An `<interface>` element: its name and its `<instance>` texts.
#[derive(Debug)]
pub struct InterfaceXml {
    pub name: Option<String>,
    pub instances: Vec<String>,
}

/// A `<hal>` element: its `format` attribute, its name, and its `<version>`,
/// `<fqname>` and `<interface>` children, each in document order.
#[derive(Debug)]
pub struct HalXml {
    pub format: Option<String>,
    pub name: Option<String>,
    pub versions: Vec<String>,
    pub fqnames: Vec<String>,
    pub interfaces: Vec<InterfaceXml>,
}

/// A manifest: its `<hal>` elements in document order.
#[derive(Debug)]
pub struct ManifestXml {
    pub hals: Vec<HalXml>,
}

impl DeepView for InterfaceXml {
    type V = Interface;

    open spec fn deep_view(&self) -> Interface {
        Interface { name: self.name.deep_view(), instances: self.instances.deep_view() }
    }
}

impl DeepView for HalXml {
    type V = Hal;

    open spec fn deep_view(&self) -> Hal {
        Hal {
            format: self.format.deep_view(),
            name: self.name.deep_view(),
            versions: self.versions.deep_view(),
            fqnames: self.fqnames.deep_view(),
            interfaces: self.interfaces.deep_view(),
        }
    }
}

impl View for InterfaceXml {
    type V = Interface;

    open spec fn view(&self) -> Interface {
        self.deep_view()
    }
}

impl View for HalXml {
    type V = Hal;

    open spec fn view(&self) -> Hal {
        self.deep_view()
    }
}

impl View for ManifestXml {
    type V = Seq<Hal>;

    open spec fn view(&self) -> Seq<Hal> {
        self.hals.deep_view()
    }
}

/// The query made of the three texts.
pub open spec fn query(hal_name: &str, interface: &str, instance: &str) -> Query {
    Query { hal_name: hal_name@, interface: interface@, instance: instance@ }
}

/// Whether `text` is there and reads `expected` once trimmed.
pub open spec fn reads(text: Option<Seq<char>>, expected: Seq<char>) -> bool {
    text matches Some(t) && text::trimmed(t) == expected
}

/// Whether one of `texts` reads `expected` once trimmed.
pub open spec fn lists(texts: Seq<Seq<char>>, expected: Seq<char>) -> bool {
    exists|i: int| 0 <= i < texts.len() && text::trimmed(#[trigger] texts[i]) == expected
}

/// The fully qualified name of `instance` of `interface`.
pub open spec fn fqname(interface: Seq<char>, instance: Seq<char>) -> Seq<char> {
    interface + "/"@ + instance
}

impl Interface {
    /// Whether the element lists `instance` under the name `interface`.
    pub open spec fn references(self, interface: Seq<char>, instance: Seq<char>) -> bool {
        reads(self.name, interface) && lists(self.instances, instance)
    }
}

impl Hal {
    /// Whether the element lists the instance, as an `<fqname>` or under an
    /// `<interface>`.
    pub open spec fn references_instance(
        self,
        interface: Seq<char>,
        instance: Seq<char>,
    ) -> bool {
        ||| lists(self.fqnames, fqname(interface, instance))
        ||| exists|i: int|
            0 <= i < self.interfaces.len() && (#[trigger] self.interfaces[i]).references(
                interface,
                instance,
            )
    }

    /// Whether the element is the AIDL HAL that the query names and lists its
    /// instance.
    pub open spec fn references_aidl_instance(self, q: Query) -> bool {
        &&& reads(self.format, "aidl"@)
        &&& reads(self.name, q.hal_name)
        &&& self.references_instance(q.interface, q.instance)
    }
}

/// Whether the manifest declares the instance that the query asks for.
pub open spec fn declares(hals: Seq<Hal>, q: Query) -> bool {
    exists|i: int| 0 <= i < hals.len() && (#[trigger] hals[i]).references_aidl_instance(q)
}

/// The `<version>` texts of all elements that reference the queried instance, in
/// document order.
pub open spec fn candidate_versions(hals: Seq<Hal>, q: Query) -> Seq<Seq<char>>
    decreases hals.len(),
{
    if hals.len() == 0 {
        Seq::empty()
    } else if hals.first().references_aidl_instance(q) {
        hals.first().versions + candidate_versions(hals.drop_first(), q)
    } else {
        candidate_versions(hals.drop_first(), q)
    }
}

/// Tests whether `text` is there and reads `expected` once trimmed.
fn text_reads(text: &Option<String>, expected: &str) -> (r: bool)
    ensures
        r == reads(text.deep_view(), expected@),
{
    match text {
        Some(t) => *t.trim() == *expected,
        None => false,
    }
}

/// Tests whether one of `texts` reads `expected` once trimmed.
fn texts_list(texts: &Vec<String>, expected: &str) -> (r: bool)
    ensures
        r == lists(texts.deep_view(), expected@),
{
    let ghost view = texts.deep_view();
    for i in 0..texts.len()
        invariant
            view == texts.deep_view(),
            forall|j: int| 0 <= j < i ==> text::trimmed(#[trigger] view[j]) != expected@,
    {
        assert(view[i as int] == texts[i as int]@);
        if *texts[i].trim() == *expected {
            return true;
        }
    }
    false
}

impl InterfaceXml {
    /// Tests whether the element lists `instance` under the name `interface`.
    fn references_instance(&self, interface: &str, instance: &str) -> (r: bool)
        ensures
            r == self@.references(interface@, instance@),
    {
        text_reads(&self.name, interface) && texts_list(&self.instances, instance)
    }
}

impl HalXml {
    /// Tests whether the element is the AIDL HAL `hal_name` and lists the
    /// instance.
    pub fn references_aidl_instance(
        &self,
        hal_name: &str,
        interface: &str,
        instance: &str,
    ) -> (r: bool)
        ensures
            r == self@.references_aidl_instance(query(hal_name, interface, instance)),
    {
        text_reads(&self.format, "aidl") && text_reads(&self.name, hal_name)
            && self.references_instance(interface, instance)
    }

    /// Tests whether the element lists the instance, as an `<fqname>` or under
    /// an `<interface>`.
    pub fn references_instance(&self, interface: &str, instance: &str) -> (r: bool)
        ensures
            r == self@.references_instance(interface@, instance@),
    {
        let fqname = String::from_str(interface).concat("/").concat(instance);
        if texts_list(&self.fqnames, fqname.as_str()) {
            return true;
        }
        for i in 0..self.interfaces.len()
            invariant
                forall|j: int|
                    0 <= j < i ==> !(#[trigger] self@.interfaces[j]).references(
                        interface@,
                        instance@,
                    ),
                !lists(self@.fqnames, self::fqname(interface@, instance@)),
        {
            assert(self@.interfaces[i as int] == self.interfaces[i as int]@);
            if self.interfaces[i].references_instance(interface, instance) {
                return true;
            }
        }
        false
    }
}

impl ManifestXml {
    /// Tests whether the manifest declares the instance of the AIDL HAL
    /// `hal_name`.
    pub fn declares_aidl_instance(
        &self,
        hal_name: &str,
        interface: &str,
        instance: &str,
    ) -> (r: bool)
        ensures
            r == declares(self@, query(hal_name, interface, instance)),
    {
        let ghost q = query(hal_name, interface, instance);
        for i in 0..self.hals.len()
            invariant
                q == query(hal_name, interface, instance),
                forall|j: int| 0 <= j < i ==> !(#[trigger] self@[j]).references_aidl_instance(q),
        {
            assert(self@[i as int] == self.hals[i as int]@);
            if self.hals[i].references_aidl_instance(hal_name, interface, instance) {
                return true;
            }
        }
        false
    }
}

} // verus!
