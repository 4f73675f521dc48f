//! What the library's functions give back, in terms of what they are handed.
//!
//! Each law takes the arguments and the result of a call. What it says of them
//! speaks of the elements' own texts, by their places in the manifests.

use vstd::prelude::*;

use crate::manifest;
use crate::manifest::{Hal, HalXml, ManifestXml, Query};
use crate::resolve;
use crate::text;
use crate::version;
use crate::version::{InvalidVersion, VintfError};

verus! {

// ---------------------------------------------------------------------------
// Matching
// ---------------------------------------------------------------------------

/// Whether an element is the AIDL HAL that the query names and lists its
/// instance, in the element's own texts.
pub open spec fn references(hal: HalXml, q: Query) -> bool {
    &&& hal.format matches Some(format) && text::trimmed(format@) == "aidl"@
    &&& hal.name matches Some(name) && text::trimmed(name@) == q.hal_name
    &&& {
        ||| exists|i: int|
            0 <= i < hal.fqnames@.len() && text::trimmed((#[trigger] hal.fqnames@[i])@)
                == q.interface + seq!['/'] + q.instance
        ||| exists|i: int, j: int|
            0 <= i < hal.interfaces@.len() && 0 <= j < hal.interfaces@[i].instances@.len()
                && text::trimmed((#[trigger] hal.interfaces@[i].instances@[j])@) == q.instance && (
            hal.interfaces@[i].name matches Some(name) && text::trimmed(name@) == q.interface)
    }
}

/// The listing of an instance, in the element's own texts.
proof fn lemma_lists_instance(hal: HalXml, interface: Seq<char>, instance: Seq<char>)
    ensures
        hal@.references_instance(interface, instance) <==> {
            ||| exists|i: int|
                0 <= i < hal.fqnames@.len() && text::trimmed((#[trigger] hal.fqnames@[i])@)
                    == interface + seq!['/'] + instance
            ||| exists|i: int, j: int|
                0 <= i < hal.interfaces@.len() && 0 <= j < hal.interfaces@[i].instances@.len()
                    && text::trimmed((#[trigger] hal.interfaces@[i].instances@[j])@) == instance
                    && (hal.interfaces@[i].name matches Some(name) && text::trimmed(name@)
                    == interface)
        },
{
    reveal_strlit("/");
    let full = interface + seq!['/'] + instance;
    assert("/"@ == seq!['/']);
    assert(manifest::fqname(interface, instance) == full);
    if manifest::lists(hal@.fqnames, full) {
        let i = choose|i: int|
            0 <= i < hal@.fqnames.len() && text::trimmed(#[trigger] hal@.fqnames[i]) == full;
        assert(text::trimmed(hal.fqnames@[i]@) == full);
    }
    if exists|i: int|
        0 <= i < hal.fqnames@.len() && text::trimmed((#[trigger] hal.fqnames@[i])@) == full {
        let i = choose|i: int|
            0 <= i < hal.fqnames@.len() && text::trimmed((#[trigger] hal.fqnames@[i])@) == full;
        assert(hal@.fqnames[i] == hal.fqnames@[i]@);
        assert(manifest::lists(hal@.fqnames, full));
    }
    if exists|i: int|
        0 <= i < hal@.interfaces.len() && (#[trigger] hal@.interfaces[i]).references(
            interface,
            instance,
        ) {
        let i = choose|i: int|
            0 <= i < hal@.interfaces.len() && (#[trigger] hal@.interfaces[i]).references(
                interface,
                instance,
            );
        let instances = hal@.interfaces[i].instances;
        let j = choose|j: int|
            0 <= j < instances.len() && text::trimmed(#[trigger] instances[j]) == instance;
        assert(hal@.interfaces[i] == hal.interfaces@[i]@);
        assert(instances[j] == hal.interfaces@[i].instances@[j]@);
    }
    if exists|i: int, j: int|
        0 <= i < hal.interfaces@.len() && 0 <= j < hal.interfaces@[i].instances@.len()
            && text::trimmed((#[trigger] hal.interfaces@[i].instances@[j])@) == instance && (
        hal.interfaces@[i].name matches Some(name) && text::trimmed(name@) == interface) {
        let (i, j) = choose|i: int, j: int|
            0 <= i < hal.interfaces@.len() && 0 <= j < hal.interfaces@[i].instances@.len()
                && text::trimmed((#[trigger] hal.interfaces@[i].instances@[j])@) == instance && (
            hal.interfaces@[i].name matches Some(name) && text::trimmed(name@) == interface);
        assert(hal@.interfaces[i] == hal.interfaces@[i]@);
        assert(hal@.interfaces[i].instances[j] == hal.interfaces@[i].instances@[j]@);
        assert(manifest::lists(hal@.interfaces[i].instances, instance));
        assert(hal@.interfaces[i].references(interface, instance));
    }
}

/// What an element says and what its own texts say come to the same.
proof fn lemma_references(hal: HalXml, q: Query)
    ensures
        hal@.references_aidl_instance(q) == references(hal, q),
{
    lemma_lists_instance(hal, q.interface, q.instance);
}

/// An element lists an instance exactly where one of its `<fqname>` texts, at any
/// place, trims to `interface/instance`, or one of its `<interface>` elements
/// whose name trims to `interface` has an `<instance>` that trims to `instance`.
pub proof fn law_references_instance(hal: &HalXml, interface: &str, instance: &str, r: bool)
    requires
        call_ensures(HalXml::references_instance, (hal, interface, instance), r),
    ensures
        r <==> {
            ||| exists|i: int|
                0 <= i < hal.fqnames@.len() && text::trimmed((#[trigger] hal.fqnames@[i])@)
                    == interface@ + seq!['/'] + instance@
            ||| exists|i: int, j: int|
                0 <= i < hal.interfaces@.len() && 0 <= j < hal.interfaces@[i].instances@.len()
                    && text::trimmed((#[trigger] hal.interfaces@[i].instances@[j])@) == instance@
                    && (hal.interfaces@[i].name matches Some(name) && text::trimmed(name@)
                    == interface@)
        },
{
    lemma_lists_instance(*hal, interface@, instance@);
}

/// An element references an instance of an AIDL HAL exactly where its format
/// trims to `aidl`, its name trims to the HAL's, and it lists the instance: in an
/// `<fqname>` at any place, or under an `<interface>` at any place.
pub proof fn law_references_aidl_instance(
    hal: &HalXml,
    hal_name: &str,
    interface: &str,
    instance: &str,
    r: bool,
)
    requires
        call_ensures(HalXml::references_aidl_instance, (hal, hal_name, interface, instance), r),
    ensures
        r <==> {
            &&& hal.format matches Some(format) && text::trimmed(format@) == "aidl"@
            &&& hal.name matches Some(name) && text::trimmed(name@) == hal_name@
            &&& {
                ||| exists|i: int|
                    0 <= i < hal.fqnames@.len() && text::trimmed((#[trigger] hal.fqnames@[i])@)
                        == interface@ + seq!['/'] + instance@
                ||| exists|i: int, j: int|
                    0 <= i < hal.interfaces@.len() && 0 <= j < hal.interfaces@[i].instances@.len()
                        && text::trimmed((#[trigger] hal.interfaces@[i].instances@[j])@)
                        == instance@ && (hal.interfaces@[i].name matches Some(name)
                        && text::trimmed(name@) == interface@)
            }
        },
{
    lemma_lists_instance(*hal, interface@, instance@);
}

/// The AIDL HAL of the right name references an instance exactly where it lists
/// it: the two calls answer alike.
pub proof fn law_references_aidl_instance_follows_listing(
    hal: &HalXml,
    hal_name: &str,
    interface: &str,
    instance: &str,
    listed: bool,
    r: bool,
)
    requires
        call_ensures(HalXml::references_instance, (hal, interface, instance), listed),
        call_ensures(HalXml::references_aidl_instance, (hal, hal_name, interface, instance), r),
    ensures
        (hal.format matches Some(format) && text::trimmed(format@) == "aidl"@) && (
        hal.name matches Some(name) && text::trimmed(name@) == hal_name@) ==> r == listed,
        r ==> listed,
{
    law_references_instance(hal, interface, instance, listed);
    law_references_aidl_instance(hal, hal_name, interface, instance, r);
}

/// A manifest declares an instance exactly where one of its elements, at any
/// place, answers that it references the instance.
pub proof fn law_declares_aidl_instance(
    m: &ManifestXml,
    hal_name: &str,
    interface: &str,
    instance: &str,
    r: bool,
)
    requires
        call_ensures(
            ManifestXml::declares_aidl_instance,
            (m, hal_name, interface, instance),
            r,
        ),
    ensures
        r <==> exists|i: int|
            0 <= i < m.hals@.len() && references(
                #[trigger] m.hals@[i],
                Query { hal_name: hal_name@, interface: interface@, instance: instance@ },
            ),
        forall|i: int, answer: bool|
            0 <= i < m.hals@.len() && #[trigger] call_ensures(
                HalXml::references_aidl_instance,
                (&m.hals@[i], hal_name, interface, instance),
                answer,
            ) && answer ==> r,
{
    let q = Query { hal_name: hal_name@, interface: interface@, instance: instance@ };
    lemma_declares(*m, q);
    assert forall|i: int, answer: bool|
        0 <= i < m.hals@.len() && #[trigger] call_ensures(
            HalXml::references_aidl_instance,
            (&m.hals@[i], hal_name, interface, instance),
            answer,
        ) && answer implies r by {
        law_references_aidl_instance(&m.hals@[i], hal_name, interface, instance, answer);
        assert(references(m.hals@[i], q));
    }
}

/// A declaration, in the elements' own texts.
proof fn lemma_declares(m: ManifestXml, q: Query)
    ensures
        manifest::declares(m@, q) <==> exists|i: int|
            0 <= i < m.hals@.len() && references(#[trigger] m.hals@[i], q),
{
    assert forall|i: int| 0 <= i < m.hals@.len() implies (#[trigger] m@[i])
        .references_aidl_instance(q) == references(m.hals@[i], q) by {
        lemma_references(m.hals@[i], q);
        assert(m@[i] == m.hals@[i]@);
    }
    if manifest::declares(m@, q) {
        let i = choose|i: int|
            0 <= i < m@.len() && (#[trigger] m@[i]).references_aidl_instance(q);
        assert(references(m.hals@[i], q));
    }
    if exists|i: int| 0 <= i < m.hals@.len() && references(#[trigger] m.hals@[i], q) {
        let i = choose|i: int| 0 <= i < m.hals@.len() && references(#[trigger] m.hals@[i], q);
        assert(m@[i].references_aidl_instance(q));
    }
}

// ---------------------------------------------------------------------------
// The places of versions
// ---------------------------------------------------------------------------

/// Whether the manifest's element `i` references the instance and has a
/// `<version>` `j`.
pub open spec fn is_candidate(m: ManifestXml, q: Query, i: int, j: int) -> bool {
    &&& 0 <= i < m.hals@.len()
    &&& 0 <= j < m.hals@[i].versions@.len()
    &&& references(m.hals@[i], q)
}

/// The number that `<version>` `j` of element `i` denotes once trimmed.
pub open spec fn number_at(m: ManifestXml, i: int, j: int) -> Option<i32> {
    text::denoted_i32(text::trimmed(m.hals@[i].versions@[j]@))
}

/// Each `<version>` of an element for which the element's own answer is that it
/// references the instance is a candidate, and no other is.
pub proof fn law_candidates(
    m: &ManifestXml,
    hal_name: &str,
    interface: &str,
    instance: &str,
    i: int,
    j: int,
    answer: bool,
)
    requires
        0 <= i < m.hals@.len(),
        0 <= j < m.hals@[i].versions@.len(),
        call_ensures(
            HalXml::references_aidl_instance,
            (&m.hals@[i], hal_name, interface, instance),
            answer,
        ),
    ensures
        is_candidate(
            *m,
            Query { hal_name: hal_name@, interface: interface@, instance: instance@ },
            i,
            j,
        ) == answer,
{
    law_references_aidl_instance(&m.hals@[i], hal_name, interface, instance, answer);
}

/// The same over what the elements say.
spec fn is_place(hals: Seq<Hal>, q: Query, i: int, j: int) -> bool {
    &&& 0 <= i < hals.len()
    &&& 0 <= j < hals[i].versions.len()
    &&& hals[i].references_aidl_instance(q)
}

/// The places of candidates are the same, whichever way they are stated.
proof fn lemma_places(m: ManifestXml, q: Query)
    ensures
        forall|i: int, j: int|
            #![trigger is_candidate(m, q, i, j)]
            #![trigger is_place(m@, q, i, j)]
            is_candidate(m, q, i, j) == is_place(m@, q, i, j) && (is_candidate(m, q, i, j)
                ==> m@[i].versions[j] == m.hals@[i].versions@[j]@),
{
    assert forall|i: int, j: int|
        #![trigger is_candidate(m, q, i, j)]
        #![trigger is_place(m@, q, i, j)]
        is_candidate(m, q, i, j) == is_place(m@, q, i, j) && (is_candidate(m, q, i, j)
            ==> m@[i].versions[j] == m.hals@[i].versions@[j]@) by {
        if 0 <= i < m.hals@.len() {
            lemma_references(m.hals@[i], q);
            assert(m@[i] == m.hals@[i]@);
        }
    }
}

/// What holds of all candidate versions in a row holds of each at its place.
proof fn lemma_all_places(hals: Seq<Hal>, q: Query, p: spec_fn(Seq<char>) -> bool)
    requires
        forall|k: int|
            0 <= k < manifest::candidate_versions(hals, q).len() ==> p(
                #[trigger] manifest::candidate_versions(hals, q)[k],
            ),
    ensures
        forall|i: int, j: int| #[trigger] is_place(hals, q, i, j) ==> p(hals[i].versions[j]),
    decreases hals.len(),
{
    let all = manifest::candidate_versions(hals, q);
    if hals.len() > 0 {
        let rest = hals.drop_first();
        let later = manifest::candidate_versions(rest, q);
        let own = if hals.first().references_aidl_instance(q) {
            hals.first().versions
        } else {
            Seq::empty()
        };
        assert(all == own + later);
        assert forall|k: int| 0 <= k < later.len() implies p(#[trigger] later[k]) by {
            assert(all[own.len() + k] == later[k]);
        }
        lemma_all_places(rest, q, p);
        assert forall|i: int, j: int| #[trigger] is_place(hals, q, i, j) implies p(
            hals[i].versions[j],
        ) by {
            if i == 0 {
                assert(all[j] == hals[0].versions[j]);
            } else {
                assert(rest[i - 1] == hals[i]);
                assert(is_place(rest, q, i - 1, j));
            }
        }
    }
}

/// The first candidate version in the row with some property has a place, and
/// the places before it are those of the versions before it.
proof fn lemma_first_place(
    hals: Seq<Hal>,
    q: Query,
    before: spec_fn(Seq<char>) -> bool,
    k: int,
) -> (place: (int, int))
    requires
        0 <= k < manifest::candidate_versions(hals, q).len(),
        forall|m: int|
            0 <= m < k ==> before(#[trigger] manifest::candidate_versions(hals, q)[m]),
    ensures
        is_place(hals, q, place.0, place.1),
        hals[place.0].versions[place.1] == manifest::candidate_versions(hals, q)[k],
        forall|i: int, j: int| #[trigger]
            is_place(hals, q, i, j) && (i < place.0 || i == place.0 && j < place.1) ==> before(
                hals[i].versions[j],
            ),
    decreases hals.len(),
{
    let all = manifest::candidate_versions(hals, q);
    let rest = hals.drop_first();
    let later = manifest::candidate_versions(rest, q);
    let own = if hals.first().references_aidl_instance(q) {
        hals.first().versions
    } else {
        Seq::empty()
    };
    assert(all == own + later);
    if k < own.len() {
        assert(is_place(hals, q, 0, k));
        assert forall|i: int, j: int| #[trigger]
            is_place(hals, q, i, j) && (i < 0 || i == 0 && j < k) implies before(
            hals[i].versions[j],
        ) by {
            assert(all[j] == hals[0].versions[j]);
        }
        (0, k)
    } else {
        assert forall|m: int| 0 <= m < k - own.len() implies before(#[trigger] later[m]) by {
            assert(all[own.len() + m] == later[m]);
        }
        let place = lemma_first_place(rest, q, before, k - own.len());
        assert(rest[place.0] == hals[place.0 + 1]);
        assert(is_place(hals, q, place.0 + 1, place.1));
        assert forall|i: int, j: int| #[trigger]
            is_place(hals, q, i, j) && (i < place.0 + 1 || i == place.0 + 1 && j
                < place.1) implies before(
            hals[i].versions[j],
        ) by {
            if i == 0 {
                assert(all[j] == hals[0].versions[j]);
            } else {
                assert(rest[i - 1] == hals[i]);
                assert(is_place(rest, q, i - 1, j));
            }
        }
        (place.0 + 1, place.1)
    }
}

// ---------------------------------------------------------------------------
// Reading one manifest
// ---------------------------------------------------------------------------

/// Whether `version` is a number to which the normalization may reply that it
/// does not support it.
spec fn rejected(
    version: Seq<char>,
    may_reply: spec_fn(i32, Option<i32>) -> bool,
) -> bool {
    text::denoted_i32(text::trimmed(version)) matches Some(number) && may_reply(number, None)
}

/// Reading versions in a row ends at one of them, or passes all.
proof fn lemma_reading_in_a_row(
    versions: Seq<Seq<char>>,
    may_reply: spec_fn(i32, Option<i32>) -> bool,
    r: Result<Option<i32>, Seq<char>>,
) -> (k: int)
    requires
        version::may_yield(versions, may_reply, r),
    ensures
        0 <= k <= versions.len(),
        forall|m: int| 0 <= m < k ==> rejected(#[trigger] versions[m], may_reply),
        match r {
            Ok(None) => k == versions.len(),
            Ok(Some(normalized)) => k < versions.len() && (text::denoted_i32(
                text::trimmed(versions[k]),
            ) matches Some(number) && may_reply(number, Some(normalized))),
            Err(invalid) => k < versions.len() && versions[k] == invalid && text::denoted_i32(
                text::trimmed(invalid),
            ) is None,
        },
    decreases versions.len(),
{
    if versions.len() == 0 {
        0
    } else {
        let rest = versions.drop_first();
        assert(versions[0] == versions.first());
        if rejected(versions.first(), may_reply) && version::may_yield(rest, may_reply, r) {
            let k = lemma_reading_in_a_row(rest, may_reply, r);
            assert forall|m: int| 0 <= m < k + 1 implies rejected(
                #[trigger] versions[m],
                may_reply,
            ) by {
                if m > 0 {
                    assert(rest[m - 1] == versions[m]);
                }
            }
            if k < rest.len() {
                assert(rest[k] == versions[k + 1]);
            }
            k + 1
        } else {
            0
        }
    }
}

/// Whether `normalize` may have turned down each candidate version before
/// `<version>` `j` of element `i`, all of them numbers.
pub open spec fn all_rejected_before<F: Fn(i32) -> Option<i32>>(
    m: ManifestXml,
    q: Query,
    normalize: F,
    i: int,
    j: int,
) -> bool {
    forall|a: int, b: int| #[trigger]
        is_candidate(m, q, a, b) && (a < i || a == i && b < j) ==> (number_at(
            m,
            a,
            b,
        ) matches Some(number) && normalize.ensures((number,), None))
}

/// Reading a manifest, by the places of its versions.
proof fn lemma_reading<F: Fn(i32) -> Option<i32>>(
    m: ManifestXml,
    q: Query,
    normalize: F,
    r: Result<Option<i32>, Seq<char>>,
)
    requires
        version::may_yield(
            manifest::candidate_versions(m@, q),
            version::replies(normalize),
            r,
        ),
    ensures
        match r {
            Ok(None) => all_rejected_before(m, q, normalize, m.hals@.len() as int, 0),
            Ok(Some(normalized)) => exists|i: int, j: int| #[trigger]
                is_candidate(m, q, i, j) && all_rejected_before(m, q, normalize, i, j) && (
                number_at(m, i, j) matches Some(number) && normalize.ensures(
                    (number,),
                    Some(normalized),
                )),
            Err(invalid) => exists|i: int, j: int| #[trigger]
                is_candidate(m, q, i, j) && all_rejected_before(m, q, normalize, i, j) && number_at(
                    m,
                    i,
                    j,
                ) is None && invalid == m.hals@[i].versions@[j]@,
        },
{
    let may_reply = version::replies(normalize);
    let all = manifest::candidate_versions(m@, q);
    let turned_down = |version: Seq<char>| rejected(version, may_reply);
    let k = lemma_reading_in_a_row(all, may_reply, r);
    lemma_places(m, q);
    if k == all.len() {
        assert forall|n: int| 0 <= n < all.len() implies turned_down(#[trigger] all[n]) by {
            assert(rejected(all[n], may_reply));
        }
        lemma_all_places(m@, q, turned_down);
        assert forall|a: int, b: int| #[trigger] is_candidate(m, q, a, b) implies (number_at(
            m,
            a,
            b,
        ) matches Some(number) && normalize.ensures((number,), None)) by {
            assert(is_place(m@, q, a, b));
            assert(turned_down(m@[a].versions[b]));
        }
    } else {
        assert forall|n: int| 0 <= n < k implies turned_down(#[trigger] all[n]) by {
            assert(rejected(all[n], may_reply));
        }
        let (i, j) = lemma_first_place(m@, q, turned_down, k);
        assert(is_candidate(m, q, i, j));
        assert forall|a: int, b: int| #[trigger]
            is_candidate(m, q, a, b) && (a < i || a == i && b < j) implies (number_at(
            m,
            a,
            b,
        ) matches Some(number) && normalize.ensures((number,), None)) by {
            assert(is_place(m@, q, a, b));
            assert(turned_down(m@[a].versions[b]));
        }
        assert(all_rejected_before(m, q, normalize, i, j));
    }
}

/// The version of a manifest is a reply to the first candidate `<version>` that
/// was not turned down. One that is no number, met before that, is the error,
/// verbatim and with its cause. Nothing comes out only where each was turned
/// down.
pub proof fn law_aidl_hal_version<F: Fn(i32) -> Option<i32>>(
    m: &ManifestXml,
    hal_name: &str,
    interface: &str,
    instance: &str,
    normalize: &F,
    r: Result<Option<i32>, InvalidVersion>,
)
    requires
        call_ensures(
            ManifestXml::aidl_hal_version::<F>,
            (m, hal_name, interface, instance, normalize),
            r,
        ),
    ensures
        ({
            let q = Query { hal_name: hal_name@, interface: interface@, instance: instance@ };
            match r {
                Ok(Some(normalized)) => exists|i: int, j: int| #[trigger]
                    is_candidate(*m, q, i, j) && all_rejected_before(*m, q, *normalize, i, j) && (
                    number_at(*m, i, j) matches Some(number) && normalize.ensures(
                        (number,),
                        Some(normalized),
                    )),
                Ok(None) => forall|i: int, j: int| #[trigger]
                    is_candidate(*m, q, i, j) ==> (number_at(*m, i, j) matches Some(number)
                        && normalize.ensures((number,), None)),
                Err(invalid) => exists|i: int, j: int| #[trigger]
                    is_candidate(*m, q, i, j) && all_rejected_before(*m, q, *normalize, i, j)
                        && number_at(*m, i, j) is None && invalid.text@
                        == m.hals@[i].versions@[j]@ && invalid.cause == text::i32_error(
                        text::trimmed(m.hals@[i].versions@[j]@),
                    ),
            }
        }),
{
    let q = Query { hal_name: hal_name@, interface: interface@, instance: instance@ };
    assert(q == manifest::query(hal_name, interface, instance));
    lemma_reading(*m, q, *normalize, version::outcome(r));
}

/// Whether `r` is what reading the candidate versions of `m` in document order
/// comes to: a reply to the first that was not turned down, that version as an
/// invalid one where it is no number, or nothing where all were turned down.
pub open spec fn reads_to<F: Fn(i32) -> Option<i32>, E>(
    m: ManifestXml,
    q: Query,
    normalize: F,
    r: Result<Option<i32>, VintfError<E>>,
) -> bool {
    match r {
        Ok(Some(normalized)) => exists|i: int, j: int|
            {
                &&& #[trigger] is_candidate(m, q, i, j)
                &&& all_rejected_before(m, q, normalize, i, j)
                &&& number_at(m, i, j) matches Some(number) && normalize.ensures(
                    (number,),
                    Some(normalized),
                )
            },
        Ok(None) => forall|i: int, j: int| #[trigger]
            is_candidate(m, q, i, j) ==> (number_at(m, i, j) matches Some(number)
                && normalize.ensures((number,), None)),
        Err(VintfError::InvalidVersion(invalid)) => exists|i: int, j: int|
            {
                &&& #[trigger] is_candidate(m, q, i, j)
                &&& all_rejected_before(m, q, normalize, i, j)
                &&& number_at(m, i, j) is None
                &&& invalid.text@ == m.hals@[i].versions@[j]@
                &&& invalid.cause == text::i32_error(text::trimmed(m.hals@[i].versions@[j]@))
            },
        Err(VintfError::Deserialize(_)) => false,
    }
}

/// A manifest answers with what its versions read to.
proof fn lemma_answers_version<F: Fn(i32) -> Option<i32>, E>(
    m: ManifestXml,
    q: Query,
    normalize: F,
    r: Result<Option<i32>, VintfError<E>>,
)
    requires
        version::answers_version(Ok(m), q, normalize, r),
    ensures
        reads_to(m, q, normalize, r),
{
    let o: Result<Option<i32>, Seq<char>> = match r {
        Ok(version) => Ok(version),
        Err(VintfError::InvalidVersion(invalid)) => Err(invalid.text@),
        Err(VintfError::Deserialize(_)) => Ok(None),
    };
    if !(r matches Err(VintfError::Deserialize(_))) {
        lemma_reading(m, q, normalize, o);
    }
}

/// A deserialized text answers with its manifest's version, or with its error; a
/// text that could not be deserialized answers with that error.
pub proof fn law_aidl_hal_version_in<F: Fn(i32) -> Option<i32>, E>(
    document: Result<ManifestXml, E>,
    hal_name: &str,
    interface: &str,
    instance: &str,
    normalize: &F,
    r: Result<Option<i32>, VintfError<E>>,
)
    requires
        call_ensures(
            version::aidl_hal_version_in::<F, E>,
            (document, hal_name, interface, instance, normalize),
            r,
        ),
    ensures
        ({
            let q = Query { hal_name: hal_name@, interface: interface@, instance: instance@ };
            match document {
                Err(e) => r == Err::<Option<i32>, VintfError<E>>(VintfError::Deserialize(e)),
                Ok(m) => reads_to(m, q, *normalize, r),
            }
        }),
{
    let q = Query { hal_name: hal_name@, interface: interface@, instance: instance@ };
    assert(q == manifest::query(hal_name, interface, instance));
    if let Ok(m) = document {
        lemma_answers_version(m, q, *normalize, r);
    }
}

/// A text answers as what it was deserialized to, or with the error of
/// deserializing it.
pub proof fn law_parse_aidl_hal_version_xml<
    F: Fn(i32) -> Option<i32>,
    D: Fn(&str) -> Result<ManifestXml, E>,
    E,
>(
    xml: &str,
    hal_name: &str,
    interface: &str,
    instance: &str,
    normalize: F,
    deserialize: D,
    r: Result<Option<i32>, VintfError<E>>,
)
    requires
        call_ensures(
            version::parse_aidl_hal_version_xml::<F, D, E>,
            (xml, hal_name, interface, instance, normalize, deserialize),
            r,
        ),
    ensures
        ({
            let q = Query { hal_name: hal_name@, interface: interface@, instance: instance@ };
            exists|document: Result<ManifestXml, E>| #[trigger]
                deserialize.ensures((xml,), document) && match document {
                    Err(e) => r == Err::<Option<i32>, VintfError<E>>(VintfError::Deserialize(e)),
                    Ok(m) => reads_to(m, q, normalize, r),
                }
        }),
{
    let q = Query { hal_name: hal_name@, interface: interface@, instance: instance@ };
    assert(q == manifest::query(hal_name, interface, instance));
    let document = choose|document: Result<ManifestXml, E>| #[trigger]
        deserialize.ensures((xml,), document) && version::answers_version(
            document,
            q,
            normalize,
            r,
        );
    if let Ok(m) = document {
        lemma_answers_version(m, q, normalize, r);
    }
}

/// A deserialized text answers whether one of its elements, at any place,
/// references the instance; a text that could not be deserialized answers with
/// that error.
pub proof fn law_aidl_hal_instance_in<E>(
    document: Result<ManifestXml, E>,
    hal_name: &str,
    interface: &str,
    instance: &str,
    r: Result<bool, VintfError<E>>,
)
    requires
        call_ensures(
            version::aidl_hal_instance_in::<E>,
            (document, hal_name, interface, instance),
            r,
        ),
    ensures
        ({
            let q = Query { hal_name: hal_name@, interface: interface@, instance: instance@ };
            match document {
                Err(e) => r == Err::<bool, VintfError<E>>(VintfError::Deserialize(e)),
                Ok(m) => r matches Ok(answer) && (answer <==> exists|i: int|
                    0 <= i < m.hals@.len() && references(#[trigger] m.hals@[i], q)),
            }
        }),
{
    let q = Query { hal_name: hal_name@, interface: interface@, instance: instance@ };
    assert(q == manifest::query(hal_name, interface, instance));
    if let Ok(m) = document {
        lemma_declares(m, q);
    }
}

/// A text answers whether one of the elements that it was deserialized to, at any
/// place, references the instance, or with the error of deserializing it.
pub proof fn law_parse_aidl_hal_instance_xml<D: Fn(&str) -> Result<ManifestXml, E>, E>(
    xml: &str,
    hal_name: &str,
    interface: &str,
    instance: &str,
    deserialize: D,
    r: Result<bool, VintfError<E>>,
)
    requires
        call_ensures(
            version::parse_aidl_hal_instance_xml::<D, E>,
            (xml, hal_name, interface, instance, deserialize),
            r,
        ),
    ensures
        ({
            let q = Query { hal_name: hal_name@, interface: interface@, instance: instance@ };
            exists|document: Result<ManifestXml, E>| #[trigger]
                deserialize.ensures((xml,), document) && match document {
                    Err(e) => r == Err::<bool, VintfError<E>>(VintfError::Deserialize(e)),
                    Ok(m) => r matches Ok(answer) && (answer <==> exists|i: int|
                        0 <= i < m.hals@.len() && references(#[trigger] m.hals@[i], q)),
                }
        }),
{
    let q = Query { hal_name: hal_name@, interface: interface@, instance: instance@ };
    assert(q == manifest::query(hal_name, interface, instance));
    let document = choose|document: Result<ManifestXml, E>| #[trigger]
        deserialize.ensures((xml,), document) && version::answers_instance(document, q, r);
    if let Ok(m) = document {
        lemma_declares(m, q);
    }
}

/// The message of an error: fixed words, and behind them the invalid text in its
/// `Debug` form.
pub proof fn law_message<E>(error: &VintfError<E>, r: String)
    requires
        call_ensures(VintfError::<E>::message, (error,), r),
    ensures
        match *error {
            VintfError::Deserialize(_) => r@ == "failed to deserialize VINTF XML"@,
            VintfError::InvalidVersion(invalid) => r@ == "invalid VINTF version "@
                + text::debug_form(invalid.text@),
        },
{
}

// ---------------------------------------------------------------------------
// Looking for a usable version
// ---------------------------------------------------------------------------

/// Whether `version` is no number, or one to which the normalization may reply
/// that it does not support it.
spec fn skipped(version: Seq<char>, may_reply: spec_fn(i32, Option<i32>) -> bool) -> bool {
    text::denoted_i32(text::trimmed(version)) matches Some(number) ==> may_reply(number, None)
}

/// Looking through versions in a row ends at one of them, or passes all.
proof fn lemma_search_in_a_row(
    versions: Seq<Seq<char>>,
    may_reply: spec_fn(i32, Option<i32>) -> bool,
    r: Option<i32>,
) -> (k: int)
    requires
        version::may_find(versions, may_reply, r),
    ensures
        0 <= k <= versions.len(),
        forall|m: int| 0 <= m < k ==> skipped(#[trigger] versions[m], may_reply),
        match r {
            None => k == versions.len(),
            Some(_) => k < versions.len() && (text::denoted_i32(
                text::trimmed(versions[k]),
            ) matches Some(number) && may_reply(number, r)),
        },
    decreases versions.len(),
{
    if versions.len() == 0 {
        0
    } else {
        let rest = versions.drop_first();
        assert(versions[0] == versions.first());
        if skipped(versions.first(), may_reply) && version::may_find(rest, may_reply, r) {
            let k = lemma_search_in_a_row(rest, may_reply, r);
            assert forall|m: int| 0 <= m < k + 1 implies skipped(
                #[trigger] versions[m],
                may_reply,
            ) by {
                if m > 0 {
                    assert(rest[m - 1] == versions[m]);
                }
            }
            if k < rest.len() {
                assert(rest[k] == versions[k + 1]);
            }
            k + 1
        } else {
            0
        }
    }
}

/// Whether each candidate version before `<version>` `j` of element `i` is no
/// number, or one that `normalize` may have turned down.
pub open spec fn all_skipped_before<F: Fn(i32) -> Option<i32>>(
    m: ManifestXml,
    q: Query,
    normalize: F,
    i: int,
    j: int,
) -> bool {
    forall|a: int, b: int| #[trigger]
        is_candidate(m, q, a, b) && (a < i || a == i && b < j) ==> (number_at(
            m,
            a,
            b,
        ) matches Some(number) ==> normalize.ensures((number,), None))
}

/// Looking through a manifest, by the places of its versions.
proof fn lemma_search<F: Fn(i32) -> Option<i32>>(
    m: ManifestXml,
    q: Query,
    normalize: F,
    r: Option<i32>,
)
    requires
        version::may_find(
            manifest::candidate_versions(m@, q),
            version::replies(normalize),
            r,
        ),
    ensures
        match r {
            None => all_skipped_before(m, q, normalize, m.hals@.len() as int, 0),
            Some(_) => exists|i: int, j: int| #[trigger]
                is_candidate(m, q, i, j) && all_skipped_before(m, q, normalize, i, j) && (number_at(
                    m,
                    i,
                    j,
                ) matches Some(number) && normalize.ensures((number,), r)),
        },
{
    let may_reply = version::replies(normalize);
    let all = manifest::candidate_versions(m@, q);
    let passed = |version: Seq<char>| skipped(version, may_reply);
    let k = lemma_search_in_a_row(all, may_reply, r);
    lemma_places(m, q);
    if k == all.len() {
        assert forall|n: int| 0 <= n < all.len() implies passed(#[trigger] all[n]) by {
            assert(skipped(all[n], may_reply));
        }
        lemma_all_places(m@, q, passed);
        assert forall|a: int, b: int| #[trigger] is_candidate(m, q, a, b) implies (number_at(
            m,
            a,
            b,
        ) matches Some(number) ==> normalize.ensures((number,), None)) by {
            assert(is_place(m@, q, a, b));
            assert(passed(m@[a].versions[b]));
        }
    } else {
        assert forall|n: int| 0 <= n < k implies passed(#[trigger] all[n]) by {
            assert(skipped(all[n], may_reply));
        }
        let (i, j) = lemma_first_place(m@, q, passed, k);
        assert(is_candidate(m, q, i, j));
        assert forall|a: int, b: int| #[trigger]
            is_candidate(m, q, a, b) && (a < i || a == i && b < j) implies (number_at(
            m,
            a,
            b,
        ) matches Some(number) ==> normalize.ensures((number,), None)) by {
            assert(is_place(m@, q, a, b));
            assert(passed(m@[a].versions[b]));
        }
        assert(all_skipped_before(m, q, normalize, i, j));
    }
}

/// The usable version of a manifest is a reply to the first candidate
/// `<version>` that is a number and was not turned down. None comes out only
/// where there is no such candidate.
pub proof fn law_usable_aidl_hal_version<F: Fn(i32) -> Option<i32>>(
    m: &ManifestXml,
    hal_name: &str,
    interface: &str,
    instance: &str,
    normalize: &F,
    r: Option<i32>,
)
    requires
        call_ensures(
            ManifestXml::usable_aidl_hal_version::<F>,
            (m, hal_name, interface, instance, normalize),
            r,
        ),
    ensures
        ({
            let q = Query { hal_name: hal_name@, interface: interface@, instance: instance@ };
            match r {
                Some(_) => exists|i: int, j: int| #[trigger]
                    is_candidate(*m, q, i, j) && all_skipped_before(*m, q, *normalize, i, j) && (
                    number_at(*m, i, j) matches Some(number) && normalize.ensures((number,), r)),
                None => forall|i: int, j: int| #[trigger]
                    is_candidate(*m, q, i, j) ==> (number_at(*m, i, j) matches Some(number)
                        ==> normalize.ensures((number,), None)),
            }
        }),
{
    let q = Query { hal_name: hal_name@, interface: interface@, instance: instance@ };
    assert(q == manifest::query(hal_name, interface, instance));
    lemma_search(*m, q, *normalize, r);
}

// ---------------------------------------------------------------------------
// Resolution
// ---------------------------------------------------------------------------

/// Whether text `d` is a manifest whose element `i` references the instance and
/// has a `<version>` `j`.
pub open spec fn stands(
    documents: Seq<Option<ManifestXml>>,
    q: Query,
    d: int,
    i: int,
    j: int,
) -> bool {
    0 <= d < documents.len() && (documents[d] matches Some(m) && is_candidate(m, q, i, j))
}

/// The number that `<version>` `j` of element `i` of text `d` denotes once
/// trimmed.
pub open spec fn number_in(
    documents: Seq<Option<ManifestXml>>,
    d: int,
    i: int,
    j: int,
) -> Option<i32> {
    text::denoted_i32(text::trimmed(documents[d]->0.hals@[i].versions@[j]@))
}

/// Whether text `d` is a manifest whose element `i` references the instance.
pub open spec fn declared_at(
    documents: Seq<Option<ManifestXml>>,
    q: Query,
    d: int,
    i: int,
) -> bool {
    0 <= d < documents.len() && (documents[d] matches Some(m) && 0 <= i < m.hals@.len()
        && references(m.hals@[i], q))
}

/// Whether `r` is a reply to the number at a place, and each version before that
/// place is no number or may have been turned down.
pub open spec fn is_explicit<F: Fn(i32) -> Option<i32>>(
    documents: Seq<Option<ManifestXml>>,
    q: Query,
    normalize: F,
    r: Option<i32>,
    d: int,
    i: int,
    j: int,
) -> bool {
    &&& stands(documents, q, d, i, j)
    &&& number_in(documents, d, i, j) matches Some(number) && normalize.ensures((number,), r)
    &&& forall|a: int, b: int, c: int| #[trigger]
        stands(documents, q, a, b, c) && (a < d || a == d && (b < i || b == i && c < j)) ==> (
        number_in(documents, a, b, c) matches Some(number) ==> normalize.ensures((number,), None))
}

/// A declaration among the texts, in the elements' own texts.
proof fn lemma_declared(documents: Seq<Option<ManifestXml>>, q: Query)
    ensures
        resolve::declared(resolve::contents(documents), q) <==> exists|d: int, i: int| #[trigger]
            declared_at(documents, q, d, i),
{
    let all = resolve::contents(documents);
    if resolve::declared(all, q) {
        let d = choose|d: int|
            0 <= d < all.len() && resolve::text_declares(#[trigger] all[d], q);
        let m = documents[d]->0;
        assert(documents[d] == Some(m) && all[d] == Some(m@));
        lemma_declares(m, q);
        let i = choose|i: int| 0 <= i < m.hals@.len() && references(#[trigger] m.hals@[i], q);
        assert(declared_at(documents, q, d, i));
    }
    if exists|d: int, i: int| #[trigger] declared_at(documents, q, d, i) {
        let (d, i) = choose|d: int, i: int| #[trigger] declared_at(documents, q, d, i);
        let m = documents[d]->0;
        assert(references(m.hals@[i], q));
        lemma_declares(m, q);
        assert(all[d] == Some(m@));
        assert(resolve::text_declares(all[d], q));
    }
}

/// The first text that states a version, or the end of the texts.
proof fn lemma_first_stated(stated: Seq<Option<i32>>) -> (d: int)
    ensures
        0 <= d <= stated.len(),
        forall|a: int| 0 <= a < d ==> #[trigger] stated[a] is None,
        match resolve::first_explicit(stated) {
            None => d == stated.len(),
            Some(found) => d < stated.len() && stated[d] == Some(found),
        },
    decreases stated.len(),
{
    if stated.len() == 0 {
        0
    } else if stated.first() is Some {
        0
    } else {
        let rest = stated.drop_first();
        let d = lemma_first_stated(rest);
        assert forall|a: int| 0 <= a < d + 1 implies #[trigger] stated[a] is None by {
            if a > 0 {
                assert(rest[a - 1] == stated[a]);
            }
        }
        if d < rest.len() {
            assert(rest[d] == stated[d + 1]);
        }
        d + 1
    }
}

/// Resolution, by the places of the versions.
proof fn lemma_resolution<F: Fn(i32) -> Option<i32>>(
    documents: Seq<Option<ManifestXml>>,
    q: Query,
    normalize: F,
    r: Option<i32>,
)
    requires
        resolve::may_resolve(
            resolve::contents(documents),
            q,
            version::replies(normalize),
            r,
        ),
    ensures
        ({
            ||| r is Some && exists|d: int, i: int, j: int| #[trigger]
                is_explicit(documents, q, normalize, r, d, i, j)
            ||| {
                &&& forall|a: int, b: int, c: int| #[trigger]
                    stands(documents, q, a, b, c) ==> (number_in(
                        documents,
                        a,
                        b,
                        c,
                    ) matches Some(number) ==> normalize.ensures((number,), None))
                &&& if exists|d: int, i: int| #[trigger] declared_at(documents, q, d, i) {
                    normalize.ensures((1i32,), r)
                } else {
                    r is None
                }
            }
        }),
{
    let all = resolve::contents(documents);
    let may_reply = version::replies(normalize);
    let stated = choose|stated: Seq<Option<i32>>| #[trigger]
        resolve::texts_may_state(all, q, may_reply, stated) && resolve::settles(
            all,
            q,
            may_reply,
            stated,
            r,
        );
    let d = lemma_first_stated(stated);
    lemma_declared(documents, q);
    assert forall|a: int, b: int, c: int| a < d && #[trigger] stands(
        documents,
        q,
        a,
        b,
        c,
    ) implies (number_in(documents, a, b, c) matches Some(number) ==> normalize.ensures(
        (number,),
        None,
    )) by {
        let m = documents[a]->0;
        assert(all[a] == Some(m@));
        assert(stated[a] is None);
        assert(resolve::text_may_state(all[a], q, may_reply, stated[a]));
        lemma_search(m, q, normalize, None);
        assert(is_candidate(m, q, b, c));
    }
    if d < stated.len() {
        assert(resolve::text_may_state(all[d], q, may_reply, stated[d]));
        let m = documents[d]->0;
        assert(documents[d] == Some(m) && all[d] == Some(m@));
        lemma_search(m, q, normalize, r);
        let (i, j) = choose|i: int, j: int| #[trigger]
            is_candidate(m, q, i, j) && all_skipped_before(m, q, normalize, i, j) && (number_at(
                m,
                i,
                j,
            ) matches Some(number) && normalize.ensures((number,), r));
        assert(stands(documents, q, d, i, j));
        assert forall|a: int, b: int, c: int| #[trigger]
            stands(documents, q, a, b, c) && (a < d || a == d && (b < i || b == i && c
                < j)) implies (
        number_in(documents, a, b, c) matches Some(number) ==> normalize.ensures(
            (number,),
            None,
        )) by {
            if a == d {
                assert(is_candidate(m, q, b, c));
            }
        }
        assert(is_explicit(documents, q, normalize, r, d, i, j));
    }
}

/// What deserialized texts resolve to is a reply to the first number, over the
/// texts in their order and each text in document order, that was not turned
/// down. Without one it is a reply to the number one where an element of some
/// text references the instance, and nothing otherwise.
pub proof fn law_resolve_aidl_hal_version_manifests<F: Fn(i32) -> Option<i32>>(
    documents: &[Option<ManifestXml>],
    hal_name: &str,
    interface: &str,
    instance: &str,
    normalize: &F,
    r: Option<i32>,
)
    requires
        call_ensures(
            resolve::resolve_aidl_hal_version_manifests::<F>,
            (documents, hal_name, interface, instance, normalize),
            r,
        ),
    ensures
        ({
            let q = Query { hal_name: hal_name@, interface: interface@, instance: instance@ };
            ||| r is Some && exists|d: int, i: int, j: int| #[trigger]
                is_explicit(documents@, q, *normalize, r, d, i, j)
            ||| {
                &&& forall|a: int, b: int, c: int| #[trigger]
                    stands(documents@, q, a, b, c) ==> (number_in(
                        documents@,
                        a,
                        b,
                        c,
                    ) matches Some(number) ==> normalize.ensures((number,), None))
                &&& if exists|d: int, i: int| #[trigger] declared_at(documents@, q, d, i) {
                    normalize.ensures((1i32,), r)
                } else {
                    r is None
                }
            }
        }),
{
    let q = Query { hal_name: hal_name@, interface: interface@, instance: instance@ };
    assert(q == manifest::query(hal_name, interface, instance));
    lemma_resolution(documents@, q, *normalize, r);
}

/// Whether each of `results` is what the text at its place was deserialized to,
/// `documents` holds the manifests among them, and `r` is what these come to.
pub open spec fn resolves_as<
    F: Fn(i32) -> Option<i32>,
    D: Fn(&str) -> Result<ManifestXml, E>,
    E,
>(
    xmls: Seq<&str>,
    q: Query,
    normalize: F,
    deserialize: D,
    r: Option<i32>,
    results: Seq<Result<ManifestXml, E>>,
    documents: Seq<Option<ManifestXml>>,
) -> bool {
    &&& results.len() == xmls.len()
    &&& documents.len() == xmls.len()
    &&& forall|i: int|
        #![trigger results[i]]
        #![trigger documents[i]]
        0 <= i < xmls.len() ==> deserialize.ensures((xmls[i],), results[i]) && (match results[i] {
            Ok(m) => documents[i] == Some(m),
            Err(_) => documents[i] is None,
        })
    &&& {
        ||| r is Some && exists|d: int, i: int, j: int| #[trigger]
            is_explicit(documents, q, normalize, r, d, i, j)
        ||| {
            &&& forall|a: int, b: int, c: int| #[trigger]
                stands(documents, q, a, b, c) ==> (number_in(
                    documents,
                    a,
                    b,
                    c,
                ) matches Some(number) ==> normalize.ensures((number,), None))
            &&& if exists|d: int, i: int| #[trigger] declared_at(documents, q, d, i) {
                normalize.ensures((1i32,), r)
            } else {
                r is None
            }
        }
    }
}

/// Texts resolve as what they were deserialized to, one by one and in their
/// order: document `i` is what text `i` was deserialized to, and is missing
/// exactly where that failed.
pub proof fn law_resolve_aidl_hal_version_xmls<
    F: Fn(i32) -> Option<i32>,
    D: Fn(&str) -> Result<ManifestXml, E>,
    E,
>(
    xmls: &[&str],
    hal_name: &str,
    interface: &str,
    instance: &str,
    normalize: F,
    deserialize: D,
    r: Option<i32>,
)
    requires
        call_ensures(
            resolve::resolve_aidl_hal_version_xmls::<F, D, E>,
            (xmls, hal_name, interface, instance, normalize, deserialize),
            r,
        ),
    ensures
        ({
            let q = Query { hal_name: hal_name@, interface: interface@, instance: instance@ };
            exists|results: Seq<Result<ManifestXml, E>>, documents: Seq<Option<ManifestXml>>|
                #![trigger results.len(), documents.len()]
                resolves_as(xmls@, q, normalize, deserialize, r, results, documents)
        }),
{
    let q = Query { hal_name: hal_name@, interface: interface@, instance: instance@ };
    assert(q == manifest::query(hal_name, interface, instance));
    let documents = choose|documents: Seq<Option<ManifestXml>>| #[trigger]
        resolve::deserialized(xmls@, deserialize, documents) && resolve::may_resolve(
            resolve::contents(documents),
            q,
            version::replies(normalize),
            r,
        );
    let results = Seq::new(
        xmls@.len(),
        |i: int|
            match documents[i] {
                Some(m) => Ok::<ManifestXml, E>(m),
                None => Err::<ManifestXml, E>(
                    choose|e: E| deserialize.ensures((xmls@[i],), Err::<ManifestXml, E>(e)),
                ),
            },
    );
    lemma_resolution(documents, q, normalize, r);
    assert(results.len() == xmls@.len() && documents.len() == xmls@.len());
    assert forall|i: int|
        #![trigger results[i]]
        #![trigger documents[i]]
        0 <= i < xmls@.len() implies
        deserialize.ensures((xmls@[i],), results[i]) && (match results[i] {
        Ok(m) => documents[i] == Some(m),
        Err(_) => documents[i] is None,
    }) by {
        let document = documents[i];
        assert(match document {
            Some(m) => deserialize.ensures((xmls@[i],), Ok::<ManifestXml, E>(m)),
            None => exists|e: E| deserialize.ensures((xmls@[i],), Err::<ManifestXml, E>(e)),
        });
    }
}

// ---------------------------------------------------------------------------
// Resolution of texts that can be read in one way only
// ---------------------------------------------------------------------------

/// Whether `deserialize` gives for each text nothing but what `documents` holds at
/// its place, `None` standing for an error.
pub open spec fn reads_as<D: Fn(&str) -> Result<ManifestXml, E>, E>(
    deserialize: D,
    xmls: Seq<&str>,
    documents: Seq<Option<ManifestXml>>,
) -> bool {
    &&& documents.len() == xmls.len()
    &&& forall|i: int, result: Result<ManifestXml, E>|
        0 <= i < xmls.len() && #[trigger] deserialize.ensures((xmls[i],), result)
            ==> documents[i] == (match result {
            Ok(m) => Some(m),
            Err(_) => None,
        })
}

/// What the texts were deserialized to is what they can be read as.
proof fn lemma_reads_as<D: Fn(&str) -> Result<ManifestXml, E>, E>(
    deserialize: D,
    xmls: Seq<&str>,
    documents: Seq<Option<ManifestXml>>,
    results: Seq<Result<ManifestXml, E>>,
    found: Seq<Option<ManifestXml>>,
)
    requires
        reads_as(deserialize, xmls, documents),
        results.len() == xmls.len(),
        found.len() == xmls.len(),
        forall|i: int|
            0 <= i < xmls.len() ==> deserialize.ensures((xmls[i],), #[trigger] results[i]) && (
            match results[i] {
                Ok(m) => found[i] == Some(m),
                Err(_) => found[i] is None,
            }),
    ensures
        found == documents,
{
    assert forall|i: int| 0 <= i < xmls.len() implies found[i] == #[trigger] documents[i] by {
        assert(deserialize.ensures((xmls[i],), results[i]));
    }
}

/// Where text `d` states a version that the normalization supports, and neither an
/// earlier text nor an earlier element or `<version>` of the same text states
/// one, the texts resolve to that version, normalized.
pub proof fn law_first_usable_text_wins<
    F: Fn(i32) -> Option<i32>,
    D: Fn(&str) -> Result<ManifestXml, E>,
    E,
>(
    xmls: &[&str],
    hal_name: &str,
    interface: &str,
    instance: &str,
    normalize: F,
    deserialize: D,
    r: Option<i32>,
    documents: Seq<Option<ManifestXml>>,
    g: spec_fn(i32) -> Option<i32>,
    d: int,
    i: int,
    j: int,
)
    requires
        call_ensures(
            resolve::resolve_aidl_hal_version_xmls::<F, D, E>,
            (xmls, hal_name, interface, instance, normalize, deserialize),
            r,
        ),
        reads_as(deserialize, xmls@, documents),
        forall|number: i32, reply: Option<i32>| #[trigger]
            normalize.ensures((number,), reply) ==> reply == g(number),
        ({
            let q = Query { hal_name: hal_name@, interface: interface@, instance: instance@ };
            &&& stands(documents, q, d, i, j)
            &&& number_in(documents, d, i, j) matches Some(number) && g(number) is Some
            &&& forall|a: int, b: int, c: int| #[trigger]
                stands(documents, q, a, b, c) && (a < d || a == d && (b < i || b == i && c < j))
                    ==> (number_in(documents, a, b, c) matches Some(number) ==> g(number) is None)
        }),
    ensures
        r == g(number_in(documents, d, i, j)->0),
{
    let q = Query { hal_name: hal_name@, interface: interface@, instance: instance@ };
    law_resolve_aidl_hal_version_xmls(
        xmls,
        hal_name,
        interface,
        instance,
        normalize,
        deserialize,
        r,
    );
    let (results, found) = choose|
        results: Seq<Result<ManifestXml, E>>,
        found: Seq<Option<ManifestXml>>,
    |
        #![trigger results.len(), found.len()]
        resolves_as(xmls@, q, normalize, deserialize, r, results, found);
    lemma_reads_as(deserialize, xmls@, documents, results, found);
    if exists|a: int, b: int, c: int| #[trigger] is_explicit(documents, q, normalize, r, a, b, c)
        && r is Some {
        let (a, b, c) = choose|a: int, b: int, c: int| #[trigger]
            is_explicit(documents, q, normalize, r, a, b, c) && r is Some;
        if d < a || d == a && (i < b || i == b && j < c) {
            assert(stands(documents, q, d, i, j));
            assert(normalize.ensures((number_in(documents, d, i, j)->0,), None));
            assert(false);
        }
        assert(stands(documents, q, a, b, c));
    } else {
        assert(stands(documents, q, d, i, j));
        assert(normalize.ensures((number_in(documents, d, i, j)->0,), None));
    }
}

/// Where no text states a version that the normalization supports, the texts
/// resolve to the number one, normalized, if one of them declares the instance,
/// and to nothing otherwise.
pub proof fn law_texts_without_usable_version<
    F: Fn(i32) -> Option<i32>,
    D: Fn(&str) -> Result<ManifestXml, E>,
    E,
>(
    xmls: &[&str],
    hal_name: &str,
    interface: &str,
    instance: &str,
    normalize: F,
    deserialize: D,
    r: Option<i32>,
    documents: Seq<Option<ManifestXml>>,
    g: spec_fn(i32) -> Option<i32>,
)
    requires
        call_ensures(
            resolve::resolve_aidl_hal_version_xmls::<F, D, E>,
            (xmls, hal_name, interface, instance, normalize, deserialize),
            r,
        ),
        reads_as(deserialize, xmls@, documents),
        forall|number: i32, reply: Option<i32>| #[trigger]
            normalize.ensures((number,), reply) ==> reply == g(number),
        ({
            let q = Query { hal_name: hal_name@, interface: interface@, instance: instance@ };
            forall|a: int, b: int, c: int| #[trigger]
                stands(documents, q, a, b, c) ==> (number_in(
                    documents,
                    a,
                    b,
                    c,
                ) matches Some(number) ==> g(number) is None)
        }),
    ensures
        ({
            let q = Query { hal_name: hal_name@, interface: interface@, instance: instance@ };
            if exists|d: int, i: int| #[trigger] declared_at(documents, q, d, i) {
                r == g(1i32)
            } else {
                r is None
            }
        }),
{
    let q = Query { hal_name: hal_name@, interface: interface@, instance: instance@ };
    law_resolve_aidl_hal_version_xmls(
        xmls,
        hal_name,
        interface,
        instance,
        normalize,
        deserialize,
        r,
    );
    let (results, found) = choose|
        results: Seq<Result<ManifestXml, E>>,
        found: Seq<Option<ManifestXml>>,
    |
        #![trigger results.len(), found.len()]
        resolves_as(xmls@, q, normalize, deserialize, r, results, found);
    lemma_reads_as(deserialize, xmls@, documents, results, found);
    if exists|a: int, b: int, c: int| #[trigger] is_explicit(documents, q, normalize, r, a, b, c)
        && r is Some {
        let (a, b, c) = choose|a: int, b: int, c: int| #[trigger]
            is_explicit(documents, q, normalize, r, a, b, c) && r is Some;
        assert(stands(documents, q, a, b, c));
        assert(false);
    }
}

// ---------------------------------------------------------------------------
// Calls that are always allowed
// ---------------------------------------------------------------------------

/// What asks for no version takes every argument.
pub proof fn law_matching_takes_everything(
    hal: &HalXml,
    m: &ManifestXml,
    hal_name: &str,
    interface: &str,
    instance: &str,
)
    ensures
        call_requires(HalXml::references_instance, (hal, interface, instance)),
        call_requires(HalXml::references_aidl_instance, (hal, hal_name, interface, instance)),
        call_requires(ManifestXml::declares_aidl_instance, (m, hal_name, interface, instance)),
{
}

/// With a normalization that takes every number, a version can be asked of every
/// manifest, and resolved from all manifests.
pub proof fn law_versions_take_every_manifest<F: Fn(i32) -> Option<i32>, E>(
    m: &ManifestXml,
    document: Result<ManifestXml, E>,
    documents: &[Option<ManifestXml>],
    hal_name: &str,
    interface: &str,
    instance: &str,
    normalize: &F,
)
    requires
        forall|number: i32| #[trigger] normalize.requires((number,)),
    ensures
        call_requires(
            ManifestXml::aidl_hal_version::<F>,
            (m, hal_name, interface, instance, normalize),
        ),
        call_requires(
            ManifestXml::usable_aidl_hal_version::<F>,
            (m, hal_name, interface, instance, normalize),
        ),
        call_requires(
            version::aidl_hal_version_in::<F, E>,
            (document, hal_name, interface, instance, normalize),
        ),
        call_requires(
            version::aidl_hal_instance_in::<E>,
            (document, hal_name, interface, instance),
        ),
        call_requires(
            resolve::resolve_aidl_hal_version_manifests::<F>,
            (documents, hal_name, interface, instance, normalize),
        ),
{
    assert(version::is_total(*normalize));
}

/// With a normalization that takes every number and a deserialization that takes
/// every text, versions and declarations can be asked of all texts.
pub proof fn law_texts_take_every_text<
    F: Fn(i32) -> Option<i32>,
    D: Fn(&str) -> Result<ManifestXml, E>,
    E,
>(
    xml: &str,
    xmls: &[&str],
    hal_name: &str,
    interface: &str,
    instance: &str,
    normalize: F,
    deserialize: D,
)
    requires
        forall|number: i32| #[trigger] normalize.requires((number,)),
        forall|text: &str| #[trigger] deserialize.requires((text,)),
    ensures
        call_requires(
            version::parse_aidl_hal_version_xml::<F, D, E>,
            (xml, hal_name, interface, instance, normalize, deserialize),
        ),
        call_requires(
            version::parse_aidl_hal_instance_xml::<D, E>,
            (xml, hal_name, interface, instance, deserialize),
        ),
        call_requires(
            resolve::resolve_aidl_hal_version_xmls::<F, D, E>,
            (xmls, hal_name, interface, instance, normalize, deserialize),
        ),
{
    assert(version::is_total(normalize));
}

} // verus!
