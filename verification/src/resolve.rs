//! The version of an AIDL HAL instance, from all manifest texts together.

use vstd::prelude::*;

use crate::manifest;
use crate::manifest::{Hal, ManifestXml, Query};
use crate::version;

verus! {

/// AOSP VINTF default for an AIDL HAL whose `<version>` is omitted.
pub const AIDL_OMITTED_VERSION: i32 = 1;

/// The first usable version that one text states, for a normalization `g`, past
/// the versions that are no number. A text that is no manifest (`None`) states
/// none.
pub open spec fn text_version(
    document: Option<Seq<Hal>>,
    q: Query,
    g: spec_fn(i32) -> Option<i32>,
) -> Option<i32> {
    match document {
        None => None,
        Some(hals) => version::first_usable_number(manifest::candidate_versions(hals, q), g),
    }
}

/// Whether `r` may be the first usable version that one text states, with a
/// normalization that gives the replies `may_reply`.
pub open spec fn text_may_state(
    document: Option<Seq<Hal>>,
    q: Query,
    may_reply: spec_fn(i32, Option<i32>) -> bool,
    r: Option<i32>,
) -> bool {
    match document {
        None => r is None,
        Some(hals) => version::may_find(manifest::candidate_versions(hals, q), may_reply, r),
    }
}

/// The first version among those that the texts state, `None` standing for a
/// text that states none.
pub open spec fn first_explicit(stated: Seq<Option<i32>>) -> Option<i32>
    decreases stated.len(),
{
    if stated.len() == 0 {
        None
    } else {
        match stated.first() {
            Some(found) => Some(found),
            None => first_explicit(stated.drop_first()),
        }
    }
}

/// Whether the text is a manifest that declares the instance.
pub open spec fn text_declares(document: Option<Seq<Hal>>, q: Query) -> bool {
    document matches Some(hals) && manifest::declares(hals, q)
}

/// Whether one of the texts declares the instance.
pub open spec fn declared(documents: Seq<Option<Seq<Hal>>>, q: Query) -> bool {
    exists|i: int| 0 <= i < documents.len() && text_declares(#[trigger] documents[i], q)
}

/// The version of the queried instance, for a normalization `g`: the first
/// usable version that a text states; failing that, what `g` makes of the
/// omitted version where a text declares the instance; failing that, nothing.
pub open spec fn resolution(
    documents: Seq<Option<Seq<Hal>>>,
    q: Query,
    g: spec_fn(i32) -> Option<i32>,
) -> Option<i32> {
    let stated = documents.map_values(|document: Option<Seq<Hal>>| text_version(document, q, g));
    match first_explicit(stated) {
        Some(found) => Some(found),
        None => if declared(documents, q) {
            g(AIDL_OMITTED_VERSION)
        } else {
            None
        },
    }
}

/// Whether `stated` may be the versions that the texts state, one by one.
pub open spec fn texts_may_state(
    documents: Seq<Option<Seq<Hal>>>,
    q: Query,
    may_reply: spec_fn(i32, Option<i32>) -> bool,
    stated: Seq<Option<i32>>,
) -> bool {
    &&& stated.len() == documents.len()
    &&& forall|i: int|
        0 <= i < documents.len() ==> text_may_state(
            documents[i],
            q,
            may_reply,
            #[trigger] stated[i],
        )
}

/// Whether `r` is what the versions that the texts state come to.
pub open spec fn settles(
    documents: Seq<Option<Seq<Hal>>>,
    q: Query,
    may_reply: spec_fn(i32, Option<i32>) -> bool,
    stated: Seq<Option<i32>>,
    r: Option<i32>,
) -> bool {
    match first_explicit(stated) {
        Some(found) => r == Some(found),
        None => if declared(documents, q) {
            may_reply(AIDL_OMITTED_VERSION, r)
        } else {
            r is None
        },
    }
}

/// Whether `r` is a possible resolution with a normalization that gives the
/// replies `may_reply`.
pub open spec fn may_resolve(
    documents: Seq<Option<Seq<Hal>>>,
    q: Query,
    may_reply: spec_fn(i32, Option<i32>) -> bool,
    r: Option<i32>,
) -> bool {
    exists|stated: Seq<Option<i32>>| #[trigger]
        texts_may_state(documents, q, may_reply, stated) && settles(
            documents,
            q,
            may_reply,
            stated,
            r,
        )
}

/// Whether `normalize` serves to resolve the texts: it takes every number, or at
/// least each that it is handed, the omitted version among them where that is
/// called for.
pub open spec fn accepts_texts<F: Fn(i32) -> Option<i32>>(
    normalize: F,
    documents: Seq<Option<Seq<Hal>>>,
    q: Query,
) -> bool {
    version::is_total(normalize) || {
        &&& forall|i: int|
            0 <= i < documents.len() ==> (#[trigger] documents[i] matches Some(hals)
                ==> version::accepts_search(normalize, manifest::candidate_versions(hals, q)))
        &&& forall|stated: Seq<Option<i32>>| #[trigger]
            texts_may_state(documents, q, version::replies(normalize), stated)
                && first_explicit(stated) is None && declared(documents, q)
                ==> normalize.requires((AIDL_OMITTED_VERSION,))
    }
}

/// A normalization that answers as `g` does leaves one resolution.
pub proof fn lemma_resolution_is_unique(
    documents: Seq<Option<Seq<Hal>>>,
    q: Query,
    may_reply: spec_fn(i32, Option<i32>) -> bool,
    g: spec_fn(i32) -> Option<i32>,
    r: Option<i32>,
)
    requires
        forall|number: i32, reply: Option<i32>| #[trigger]
            may_reply(number, reply) ==> reply == g(number),
        may_resolve(documents, q, may_reply, r),
    ensures
        r == resolution(documents, q, g),
{
    let stated = choose|stated: Seq<Option<i32>>| #[trigger]
        texts_may_state(documents, q, may_reply, stated) && settles(
            documents,
            q,
            may_reply,
            stated,
            r,
        );
    let expected = documents.map_values(
        |document: Option<Seq<Hal>>| text_version(document, q, g),
    );
    assert forall|i: int| 0 <= i < documents.len() implies stated[i] == expected[i] by {
        if let Some(hals) = documents[i] {
            version::lemma_find_is_unique(
                manifest::candidate_versions(hals, q),
                may_reply,
                g,
                stated[i],
            );
        }
    }
    assert(stated == expected);
}

/// One more text at the end matters only where none before it states a version.
proof fn lemma_first_explicit_push(stated: Seq<Option<i32>>, last: Option<i32>)
    ensures
        first_explicit(stated.push(last)) == match first_explicit(stated) {
            Some(found) => Some(found),
            None => last,
        },
    decreases stated.len(),
{
    if stated.len() == 0 {
        assert(stated.push(last).drop_first() == stated);
    } else {
        assert(stated.push(last).first() == stated.first());
        assert(stated.push(last).drop_first() == stated.drop_first().push(last));
        lemma_first_explicit_push(stated.drop_first(), last);
    }
}

/// What the texts say: a manifest each, or `None` where a text is none.
pub open spec fn contents(documents: Seq<Option<ManifestXml>>) -> Seq<Option<Seq<Hal>>> {
    documents.map_values(
        |document: Option<ManifestXml>|
            match document {
                Some(m) => Some(m@),
                None => None,
            },
    )
}

/// Resolves the version of an AIDL HAL instance from deserialized texts, `None`
/// standing for a text that is no manifest.
pub fn resolve_aidl_hal_version_manifests<F: Fn(i32) -> Option<i32>>(
    documents: &[Option<ManifestXml>],
    hal_name: &str,
    interface: &str,
    instance: &str,
    normalize: &F,
) -> (r: Option<i32>)
    requires
        accepts_texts(
            *normalize,
            contents(documents@),
            manifest::query(hal_name, interface, instance),
        ),
    ensures
        may_resolve(
            contents(documents@),
            manifest::query(hal_name, interface, instance),
            version::replies(*normalize),
            r,
        ),
        forall|g: spec_fn(i32) -> Option<i32>| #[trigger]
            version::normalizes_as(*normalize, g) ==> r == resolution(
                contents(documents@),
                manifest::query(hal_name, interface, instance),
                g,
            ),
{
    let ghost all = contents(documents@);
    let ghost q = manifest::query(hal_name, interface, instance);
    let ghost may_reply = version::replies(*normalize);
    let ghost mut stated: Seq<Option<i32>> = Seq::empty();
    let mut declares: bool = false;
    let mut explicit: Option<i32> = None;
    for i in 0..documents.len()
        invariant
            all == contents(documents@),
            q == manifest::query(hal_name, interface, instance),
            may_reply == version::replies(*normalize),
            accepts_texts(*normalize, all, q),
            stated.len() == i,
            forall|j: int|
                0 <= j < i ==> text_may_state(all[j], q, may_reply, #[trigger] stated[j]),
            explicit == first_explicit(stated),
            declares == exists|j: int| 0 <= j < i && text_declares(#[trigger] all[j], q),
    {
        let ghost mut last: Option<i32> = None;
        let ghost before = declares;
        match &documents[i] {
            None => {
                assert(all[i as int] is None);
            },
            Some(m) => {
                assert(all[i as int] == Some(m@));
                let found = m.usable_aidl_hal_version(hal_name, interface, instance, normalize);
                proof {
                    last = found;
                }
                if explicit.is_none() {
                    explicit = found;
                }
                if m.declares_aidl_instance(hal_name, interface, instance) {
                    declares = true;
                }
            },
        }
        proof {
            lemma_first_explicit_push(stated, last);
            stated = stated.push(last);
            assert(declares == (before || text_declares(all[i as int], q)));
        }
    }
    assert(texts_may_state(all, q, may_reply, stated));
    let r = match explicit {
        Some(version) => Some(version),
        None => if declares {
            normalize(AIDL_OMITTED_VERSION)
        } else {
            None
        },
    };
    proof {
        assert forall|g: spec_fn(i32) -> Option<i32>| #[trigger]
            version::normalizes_as(*normalize, g) implies r == resolution(all, q, g) by {
            lemma_resolution_is_unique(all, q, may_reply, g, r);
        }
    }
    r
}

/// Whether `documents` are what `deserialize` may have made of the texts.
pub open spec fn deserialized<D: Fn(&str) -> Result<ManifestXml, E>, E>(
    xmls: Seq<&str>,
    deserialize: D,
    documents: Seq<Option<ManifestXml>>,
) -> bool {
    &&& documents.len() == xmls.len()
    &&& forall|i: int|
        0 <= i < xmls.len() ==> match #[trigger] documents[i] {
            Some(m) => deserialize.ensures((xmls[i],), Ok::<ManifestXml, E>(m)),
            None => exists|e: E| deserialize.ensures((xmls[i],), Err::<ManifestXml, E>(e)),
        }
}

/// Resolves an AIDL HAL version from VINTF manifest texts.
///
/// The first usable version that the texts state wins; a `<version>` that is no
/// number, or not one that `normalize` supports, is passed over. A declared
/// instance without a usable version has what `normalize` makes of
/// [`AIDL_OMITTED_VERSION`]. An instance that no text declares has none.
/// Unrelated HALs and malformed texts are ignored.
///
/// `deserialize` turns a text into a manifest or gives its own error.
pub fn resolve_aidl_hal_version_xmls<
    F: Fn(i32) -> Option<i32>,
    D: Fn(&str) -> Result<ManifestXml, E>,
    E,
>(
    xmls: &[&str],
    hal_name: &str,
    interface: &str,
    instance: &str,
    normalize: F,
    deserialize: D,
) -> (r: Option<i32>)
    requires
        forall|i: int| 0 <= i < xmls@.len() ==> deserialize.requires((#[trigger] xmls@[i],)),
        forall|documents: Seq<Option<ManifestXml>>| #[trigger]
            deserialized(xmls@, deserialize, documents) ==> accepts_texts(
                normalize,
                contents(documents),
                manifest::query(hal_name, interface, instance),
            ),
    ensures
        exists|documents: Seq<Option<ManifestXml>>| #[trigger]
            deserialized(xmls@, deserialize, documents) && may_resolve(
                contents(documents),
                manifest::query(hal_name, interface, instance),
                version::replies(normalize),
                r,
            ) && forall|g: spec_fn(i32) -> Option<i32>| #[trigger]
                version::normalizes_as(normalize, g) ==> r == resolution(
                    contents(documents),
                    manifest::query(hal_name, interface, instance),
                    g,
                ),
{
    let mut documents: Vec<Option<ManifestXml>> = Vec::new();
    for i in 0..xmls.len()
        invariant
            forall|i: int| 0 <= i < xmls@.len() ==> deserialize.requires((#[trigger] xmls@[i],)),
            documents@.len() == i,
            forall|j: int|
                0 <= j < i ==> match #[trigger] documents@[j] {
                    Some(m) => deserialize.ensures((xmls@[j],), Ok::<ManifestXml, E>(m)),
                    None => exists|e: E|
                        deserialize.ensures((xmls@[j],), Err::<ManifestXml, E>(e)),
                },
    {
        match deserialize(xmls[i]) {
            Ok(m) => documents.push(Some(m)),
            Err(_) => documents.push(None),
        }
    }
    assert(deserialized(xmls@, deserialize, documents@));
    resolve_aidl_hal_version_manifests(
        documents.as_slice(),
        hal_name,
        interface,
        instance,
        &normalize,
    )
}

} // verus!
