//! The version that one manifest states for an AIDL HAL instance.

use vstd::prelude::*;
use vstd::string::*;

use crate::manifest;
use crate::manifest::{ManifestXml, Query};
use crate::text;

verus! {

/// A `<version>` of a matching HAL that is not a decimal `i32`.
#[derive(Debug)]
pub struct InvalidVersion {
    /// The `<version>` as it stands in the text.
    pub text: String,
    /// Why the trimmed text is no number.
    pub cause: std::num::ParseIntError,
}

impl InvalidVersion {
    /// Whether the cause is the one that belongs to the text.
    pub open spec fn is_founded(self) -> bool {
        &&& text::denoted_i32(text::trimmed(self.text@)) is None
        &&& self.cause == text::i32_error(text::trimmed(self.text@))
    }
}

/// Why a manifest text gives no answer. `E` is the error of the XML
/// deserializer.
#[derive(Debug)]
pub enum VintfError<E> {
    /// The text is not a manifest.
    Deserialize(E),
    /// A `<version>` of a matching HAL is not a decimal `i32`.
    InvalidVersion(InvalidVersion),
}

impl<E> VintfError<E> {
    /// The message of the error.
    pub open spec fn spec_message(self) -> Seq<char> {
        match self {
            VintfError::Deserialize(_) => "failed to deserialize VINTF XML"@,
            VintfError::InvalidVersion(invalid) => "invalid VINTF version "@ + text::debug_form(
                invalid.text@,
            ),
        }
    }

    /// Says what went wrong, without the error that caused it.
    pub fn message(&self) -> (r: String)
        ensures
            r@ == self.spec_message(),
    {
        match self {
            VintfError::Deserialize(_) => String::from_str("failed to deserialize VINTF XML"),
            VintfError::InvalidVersion(invalid) => String::from_str(
                "invalid VINTF version ",
            ).concat(text::debug_string(invalid.text.as_str()).as_str()),
        }
    }
}

/// What reading `<version>` texts in order comes to, for a normalization `g`:
/// the first usable version, or `None` where none is usable; a text that is no
/// number, met before a usable version, ends the reading and is the error.
pub open spec fn first_usable(
    versions: Seq<Seq<char>>,
    g: spec_fn(i32) -> Option<i32>,
) -> Result<Option<i32>, Seq<char>>
    decreases versions.len(),
{
    if versions.len() == 0 {
        Ok(None)
    } else {
        match text::denoted_i32(text::trimmed(versions.first())) {
            None => Err(versions.first()),
            Some(version) => match g(version) {
                Some(normalized) => Ok(Some(normalized)),
                None => first_usable(versions.drop_first(), g),
            },
        }
    }
}

/// The replies that `normalize` may give to a version. It need not answer alike
/// each time it is called.
pub open spec fn replies<F: Fn(i32) -> Option<i32>>(
    normalize: F,
) -> spec_fn(i32, Option<i32>) -> bool {
    |version: i32, reply: Option<i32>| normalize.ensures((version,), reply)
}

/// Whether `r` is a possible outcome of reading `versions` in order with a
/// normalization that gives the replies `may_reply`.
pub open spec fn may_yield(
    versions: Seq<Seq<char>>,
    may_reply: spec_fn(i32, Option<i32>) -> bool,
    r: Result<Option<i32>, Seq<char>>,
) -> bool
    decreases versions.len(),
{
    if versions.len() == 0 {
        r == Ok::<Option<i32>, Seq<char>>(None)
    } else {
        match text::denoted_i32(text::trimmed(versions.first())) {
            None => r == Err::<Option<i32>, Seq<char>>(versions.first()),
            Some(version) => {
                ||| r matches Ok(Some(normalized)) && may_reply(version, Some(normalized))
                ||| may_reply(version, None) && may_yield(versions.drop_first(), may_reply, r)
            },
        }
    }
}

/// Whether `normalize` answers as the mathematical function `g` does.
pub open spec fn normalizes_as<F: Fn(i32) -> Option<i32>>(
    normalize: F,
    g: spec_fn(i32) -> Option<i32>,
) -> bool {
    forall|version: i32, r: Option<i32>| #[trigger]
        normalize.ensures((version,), r) ==> r == g(version)
}

/// Whether reading `versions` in order only ever hands the normalization numbers
/// that it takes, where `takes` says which those are and `may_reply` which
/// replies it gives.
pub open spec fn stays_within(
    versions: Seq<Seq<char>>,
    takes: spec_fn(i32) -> bool,
    may_reply: spec_fn(i32, Option<i32>) -> bool,
) -> bool
    decreases versions.len(),
{
    versions.len() == 0 || match text::denoted_i32(text::trimmed(versions.first())) {
        None => true,
        Some(version) => {
            &&& takes(version)
            &&& may_reply(version, None) ==> stays_within(versions.drop_first(), takes, may_reply)
        },
    }
}

/// The numbers that `normalize` can be called with.
pub open spec fn domain<F: Fn(i32) -> Option<i32>>(normalize: F) -> spec_fn(i32) -> bool {
    |version: i32| normalize.requires((version,))
}

/// Whether `normalize` can be called with every number.
pub open spec fn is_total<F: Fn(i32) -> Option<i32>>(normalize: F) -> bool {
    forall|version: i32| #[trigger] normalize.requires((version,))
}

/// Whether `normalize` serves to read `versions`: it takes every number, or at
/// least each that it is handed.
pub open spec fn accepts<F: Fn(i32) -> Option<i32>>(
    normalize: F,
    versions: Seq<Seq<char>>,
) -> bool {
    is_total(normalize) || stays_within(versions, domain(normalize), replies(normalize))
}

/// A normalization that answers as `g` does leaves one outcome.
pub proof fn lemma_outcome_is_unique(
    versions: Seq<Seq<char>>,
    may_reply: spec_fn(i32, Option<i32>) -> bool,
    g: spec_fn(i32) -> Option<i32>,
    r: Result<Option<i32>, Seq<char>>,
)
    requires
        forall|version: i32, reply: Option<i32>| #[trigger]
            may_reply(version, reply) ==> reply == g(version),
        may_yield(versions, may_reply, r),
    ensures
        r == first_usable(versions, g),
    decreases versions.len(),
{
    if versions.len() > 0 {
        if let Some(version) = text::denoted_i32(text::trimmed(versions.first())) {
            if may_reply(version, None) && may_yield(versions.drop_first(), may_reply, r) {
                lemma_outcome_is_unique(versions.drop_first(), may_reply, g, r);
            }
        }
    }
}

/// Reading `first` and then `second` comes to what `first` comes to, or, where
/// `first` holds no usable version and no error, to what `second` comes to.
proof fn lemma_outcome_of_concatenation(
    first: Seq<Seq<char>>,
    second: Seq<Seq<char>>,
    may_reply: spec_fn(i32, Option<i32>) -> bool,
    r1: Result<Option<i32>, Seq<char>>,
    r2: Result<Option<i32>, Seq<char>>,
)
    requires
        may_yield(first, may_reply, r1),
        r1 == Ok::<Option<i32>, Seq<char>>(None) ==> may_yield(second, may_reply, r2),
    ensures
        may_yield(
            first + second,
            may_reply,
            if r1 == Ok::<Option<i32>, Seq<char>>(None) {
                r2
            } else {
                r1
            },
        ),
    decreases first.len(),
{
    if first.len() == 0 {
        assert(first + second == second);
    } else {
        assert((first + second).first() == first.first());
        assert((first + second).drop_first() == first.drop_first() + second);
        if may_yield(first.drop_first(), may_reply, r1) {
            lemma_outcome_of_concatenation(first.drop_first(), second, may_reply, r1, r2);
        }
    }
}

/// What holds of every model that `normalize` may answer as.
proof fn lemma_outcome_under_any_model<F: Fn(i32) -> Option<i32>>(
    versions: Seq<Seq<char>>,
    normalize: F,
    r: Result<Option<i32>, Seq<char>>,
)
    requires
        may_yield(versions, replies(normalize), r),
    ensures
        forall|g: spec_fn(i32) -> Option<i32>| #[trigger]
            normalizes_as(normalize, g) ==> r == first_usable(versions, g),
{
    assert forall|g: spec_fn(i32) -> Option<i32>| #[trigger] normalizes_as(normalize, g) implies r
        == first_usable(versions, g) by {
        lemma_outcome_is_unique(versions, replies(normalize), g, r);
    }
}

/// Reading a concatenation reads the first part, and the second where the first
/// decides nothing.
proof fn lemma_stays_within_parts(
    first: Seq<Seq<char>>,
    second: Seq<Seq<char>>,
    takes: spec_fn(i32) -> bool,
    may_reply: spec_fn(i32, Option<i32>) -> bool,
)
    requires
        stays_within(first + second, takes, may_reply),
    ensures
        stays_within(first, takes, may_reply),
        may_yield(first, may_reply, Ok(None)) ==> stays_within(second, takes, may_reply),
    decreases first.len(),
{
    if first.len() == 0 {
        assert(first + second == second);
    } else {
        assert((first + second).first() == first.first());
        assert((first + second).drop_first() == first.drop_first() + second);
        if let Some(version) = text::denoted_i32(text::trimmed(first.first())) {
            if may_reply(version, None) {
                lemma_stays_within_parts(first.drop_first(), second, takes, may_reply);
            }
        }
    }
}

/// The outcome that a returned value stands for.
pub open spec fn outcome(r: Result<Option<i32>, InvalidVersion>) -> Result<
    Option<i32>,
    Seq<char>,
> {
    match r {
        Ok(version) => Ok(version),
        Err(invalid) => Err(invalid.text@),
    }
}

/// Reads `<version>` texts in order up to the first usable one, or up to the
/// first that is no number.
fn first_usable_version<F: Fn(i32) -> Option<i32>>(
    versions: &Vec<String>,
    normalize: &F,
) -> (r: Result<Option<i32>, InvalidVersion>)
    requires
        accepts(*normalize, versions.deep_view()),
    ensures
        may_yield(versions.deep_view(), replies(*normalize), outcome(r)),
        r matches Err(invalid) ==> invalid.is_founded(),
{
    let ghost all = versions.deep_view();
    let ghost may_reply = replies(*normalize);
    let mut i: usize = 0;
    assert(all.skip(0) == all);
    while i < versions.len()
        invariant
            i <= versions.len(),
            all == versions.deep_view(),
            may_reply == replies(*normalize),
            accepts(*normalize, all.skip(i as int)),
            forall|r: Result<Option<i32>, Seq<char>>| #[trigger]
                may_yield(all.skip(i as int), may_reply, r) ==> may_yield(all, may_reply, r),
        decreases versions.len() - i,
    {
        let text = &versions[i];
        let ghost left = all.skip(i as int);
        assert(all[i as int] == text@);
        assert(left.first() == text@);
        assert(left.drop_first() == all.skip(i + 1));
        match text::parse_i32(text.trim()) {
            Err(cause) => {
                let r: Result<Option<i32>, InvalidVersion> = Err(
                    InvalidVersion { text: text.clone(), cause },
                );
                assert(may_yield(left, may_reply, outcome(r)));
                return r;
            },
            Ok(version) => {
                if let Some(normalized) = normalize(version) {
                    let r: Result<Option<i32>, InvalidVersion> = Ok(Some(normalized));
                    assert(may_yield(left, may_reply, outcome(r)));
                    return r;
                }
                assert forall|r: Result<Option<i32>, Seq<char>>| #[trigger]
                    may_yield(all.skip(i + 1), may_reply, r) implies may_yield(
                    all,
                    may_reply,
                    r,
                ) by {
                    assert(may_yield(left, may_reply, r));
                }
            },
        }
        i += 1;
    }
    let r: Result<Option<i32>, InvalidVersion> = Ok(None);
    assert(may_yield(all.skip(i as int), may_reply, outcome(r)));
    r
}

impl ManifestXml {
    /// Finds the first usable version that a HAL referencing the instance
    /// states: the first `<version>`, over all such HALs in document order, that
    /// `normalize` maps to a number. A `<version>` that is no number, met before
    /// that, is the error.
    pub fn aidl_hal_version<F: Fn(i32) -> Option<i32>>(
        &self,
        hal_name: &str,
        interface: &str,
        instance: &str,
        normalize: &F,
    ) -> (r: Result<Option<i32>, InvalidVersion>)
        requires
            accepts(
                *normalize,
                manifest::candidate_versions(
                    self@,
                    manifest::query(hal_name, interface, instance),
                ),
            ),
        ensures
            may_yield(
                manifest::candidate_versions(
                    self@,
                    manifest::query(hal_name, interface, instance),
                ),
                replies(*normalize),
                outcome(r),
            ),
            r matches Err(invalid) ==> invalid.is_founded(),
            forall|g: spec_fn(i32) -> Option<i32>| #[trigger]
                normalizes_as(*normalize, g) ==> outcome(r) == first_usable(
                    manifest::candidate_versions(
                        self@,
                        manifest::query(hal_name, interface, instance),
                    ),
                    g,
                ),
    {
        let ghost q = manifest::query(hal_name, interface, instance);
        let ghost all = manifest::candidate_versions(self@, q);
        let ghost may_reply = replies(*normalize);
        let mut i: usize = 0;
        assert(self@.skip(0) == self@);
        while i < self.hals.len()
            invariant
                i <= self.hals.len(),
                q == manifest::query(hal_name, interface, instance),
                all == manifest::candidate_versions(self@, q),
                may_reply == replies(*normalize),
                accepts(*normalize, manifest::candidate_versions(self@.skip(i as int), q)),
                forall|r: Result<Option<i32>, Seq<char>>| #[trigger]
                    may_yield(manifest::candidate_versions(self@.skip(i as int), q), may_reply, r)
                        ==> may_yield(all, may_reply, r),
            decreases self.hals.len() - i,
        {
            let hal = &self.hals[i];
            let ghost here = manifest::candidate_versions(self@.skip(i as int), q);
            let ghost rest = manifest::candidate_versions(self@.skip(i + 1), q);
            assert(self@.skip(i as int).first() == hal@);
            assert(self@.skip(i as int).drop_first() == self@.skip(i + 1));
            if hal.references_aidl_instance(hal_name, interface, instance) {
                assert(here == hal@.versions + rest);
                proof {
                    if !is_total(*normalize) {
                        lemma_stays_within_parts(
                            hal@.versions,
                            rest,
                            domain(*normalize),
                            may_reply,
                        );
                    }
                }
                let found = first_usable_version(&hal.versions, normalize);
                match found {
                    Ok(None) => {
                        assert forall|r: Result<Option<i32>, Seq<char>>| #[trigger]
                            may_yield(rest, may_reply, r) implies may_yield(
                            all,
                            may_reply,
                            r,
                        ) by {
                            lemma_outcome_of_concatenation(
                                hal@.versions,
                                rest,
                                may_reply,
                                outcome(found),
                                r,
                            );
                        }
                    },
                    _ => {
                        proof {
                            lemma_outcome_of_concatenation(
                                hal@.versions,
                                rest,
                                may_reply,
                                outcome(found),
                                outcome(found),
                            );
                            lemma_outcome_under_any_model(all, *normalize, outcome(found));
                        }
                        return found;
                    },
                }
            }
            i += 1;
        }
        assert(self@.skip(i as int) == Seq::<manifest::Hal>::empty());
        let r: Result<Option<i32>, InvalidVersion> = Ok(None);
        proof {
            assert(may_yield(
                manifest::candidate_versions(self@.skip(i as int), q),
                may_reply,
                outcome(r),
            ));
            lemma_outcome_under_any_model(all, *normalize, outcome(r));
        }
        r
    }
}

/// What one `<version>` text gives, for a normalization `g`: nothing, where it is
/// no number or one that `g` does not support.
pub open spec fn usable(version: Seq<char>, g: spec_fn(i32) -> Option<i32>) -> Option<i32> {
    match text::denoted_i32(text::trimmed(version)) {
        None => None,
        Some(number) => g(number),
    }
}

/// The first usable version among `<version>` texts, past those that are no
/// number.
pub open spec fn first_usable_number(
    versions: Seq<Seq<char>>,
    g: spec_fn(i32) -> Option<i32>,
) -> Option<i32>
    decreases versions.len(),
{
    if versions.len() == 0 {
        None
    } else {
        match usable(versions.first(), g) {
            Some(normalized) => Some(normalized),
            None => first_usable_number(versions.drop_first(), g),
        }
    }
}

/// Whether `r` may be the first usable version among `versions`, past those that
/// are no number, with a normalization that gives the replies `may_reply`.
pub open spec fn may_find(
    versions: Seq<Seq<char>>,
    may_reply: spec_fn(i32, Option<i32>) -> bool,
    r: Option<i32>,
) -> bool
    decreases versions.len(),
{
    if versions.len() == 0 {
        r is None
    } else {
        match text::denoted_i32(text::trimmed(versions.first())) {
            None => may_find(versions.drop_first(), may_reply, r),
            Some(number) => {
                ||| r is Some && may_reply(number, r)
                ||| may_reply(number, None) && may_find(versions.drop_first(), may_reply, r)
            },
        }
    }
}

/// Whether looking for a usable version among `versions`, past those that are no
/// number, only ever hands the normalization numbers that it takes.
pub open spec fn search_stays_within(
    versions: Seq<Seq<char>>,
    takes: spec_fn(i32) -> bool,
    may_reply: spec_fn(i32, Option<i32>) -> bool,
) -> bool
    decreases versions.len(),
{
    versions.len() == 0 || match text::denoted_i32(text::trimmed(versions.first())) {
        None => search_stays_within(versions.drop_first(), takes, may_reply),
        Some(number) => {
            &&& takes(number)
            &&& may_reply(number, None) ==> search_stays_within(
                versions.drop_first(),
                takes,
                may_reply,
            )
        },
    }
}

/// Whether `normalize` serves to look for a usable version among `versions`: it
/// takes every number, or at least each that it is handed.
pub open spec fn accepts_search<F: Fn(i32) -> Option<i32>>(
    normalize: F,
    versions: Seq<Seq<char>>,
) -> bool {
    is_total(normalize) || search_stays_within(versions, domain(normalize), replies(normalize))
}

/// A normalization that answers as `g` does leaves one version to find.
pub proof fn lemma_find_is_unique(
    versions: Seq<Seq<char>>,
    may_reply: spec_fn(i32, Option<i32>) -> bool,
    g: spec_fn(i32) -> Option<i32>,
    r: Option<i32>,
)
    requires
        forall|number: i32, reply: Option<i32>| #[trigger]
            may_reply(number, reply) ==> reply == g(number),
        may_find(versions, may_reply, r),
    ensures
        r == first_usable_number(versions, g),
    decreases versions.len(),
{
    if versions.len() > 0 {
        if may_find(versions.drop_first(), may_reply, r) {
            lemma_find_is_unique(versions.drop_first(), may_reply, g, r);
        }
    }
}

/// Looking through `first` and then `second` finds what `first` holds, or, where
/// it holds nothing usable, what `second` holds.
proof fn lemma_find_in_concatenation(
    first: Seq<Seq<char>>,
    second: Seq<Seq<char>>,
    may_reply: spec_fn(i32, Option<i32>) -> bool,
    r1: Option<i32>,
    r2: Option<i32>,
)
    requires
        may_find(first, may_reply, r1),
        r1 is None ==> may_find(second, may_reply, r2),
    ensures
        may_find(
            first + second,
            may_reply,
            if r1 is None {
                r2
            } else {
                r1
            },
        ),
    decreases first.len(),
{
    if first.len() == 0 {
        assert(first + second == second);
    } else {
        assert((first + second).first() == first.first());
        assert((first + second).drop_first() == first.drop_first() + second);
        if may_find(first.drop_first(), may_reply, r1) {
            lemma_find_in_concatenation(first.drop_first(), second, may_reply, r1, r2);
        }
    }
}

/// Looking through a concatenation looks through the first part, and the second
/// where the first holds nothing usable.
proof fn lemma_search_stays_within_parts(
    first: Seq<Seq<char>>,
    second: Seq<Seq<char>>,
    takes: spec_fn(i32) -> bool,
    may_reply: spec_fn(i32, Option<i32>) -> bool,
)
    requires
        search_stays_within(first + second, takes, may_reply),
    ensures
        search_stays_within(first, takes, may_reply),
        may_find(first, may_reply, None) ==> search_stays_within(second, takes, may_reply),
    decreases first.len(),
{
    if first.len() == 0 {
        assert(first + second == second);
    } else {
        assert((first + second).first() == first.first());
        assert((first + second).drop_first() == first.drop_first() + second);
        if search_stays_within(first.drop_first() + second, takes, may_reply) {
            lemma_search_stays_within_parts(first.drop_first(), second, takes, may_reply);
        }
    }
}

/// Looks through `<version>` texts for the first usable one, past those that are
/// no number.
fn find_usable_version<F: Fn(i32) -> Option<i32>>(
    versions: &Vec<String>,
    normalize: &F,
) -> (r: Option<i32>)
    requires
        accepts_search(*normalize, versions.deep_view()),
    ensures
        may_find(versions.deep_view(), replies(*normalize), r),
{
    let ghost all = versions.deep_view();
    let ghost may_reply = replies(*normalize);
    let mut i: usize = 0;
    assert(all.skip(0) == all);
    while i < versions.len()
        invariant
            i <= versions.len(),
            all == versions.deep_view(),
            may_reply == replies(*normalize),
            accepts_search(*normalize, all.skip(i as int)),
            forall|r: Option<i32>| #[trigger]
                may_find(all.skip(i as int), may_reply, r) ==> may_find(all, may_reply, r),
        decreases versions.len() - i,
    {
        let text = &versions[i];
        let ghost left = all.skip(i as int);
        assert(all[i as int] == text@);
        assert(left.first() == text@);
        assert(left.drop_first() == all.skip(i + 1));
        if let Ok(number) = text::parse_i32(text.trim()) {
            let reply = normalize(number);
            if reply.is_some() {
                assert(may_find(left, may_reply, reply));
                return reply;
            }
        }
        assert forall|r: Option<i32>| #[trigger] may_find(
            all.skip(i + 1),
            may_reply,
            r,
        ) implies may_find(all, may_reply, r) by {
            assert(may_find(left, may_reply, r));
        }
        i += 1;
    }
    assert(may_find(all.skip(i as int), may_reply, None));
    None
}

impl ManifestXml {
    /// Finds the first usable version that a HAL referencing the instance
    /// states, past those that are no number.
    pub fn usable_aidl_hal_version<F: Fn(i32) -> Option<i32>>(
        &self,
        hal_name: &str,
        interface: &str,
        instance: &str,
        normalize: &F,
    ) -> (r: Option<i32>)
        requires
            accepts_search(
                *normalize,
                manifest::candidate_versions(
                    self@,
                    manifest::query(hal_name, interface, instance),
                ),
            ),
        ensures
            may_find(
                manifest::candidate_versions(
                    self@,
                    manifest::query(hal_name, interface, instance),
                ),
                replies(*normalize),
                r,
            ),
            forall|g: spec_fn(i32) -> Option<i32>| #[trigger]
                normalizes_as(*normalize, g) ==> r == first_usable_number(
                    manifest::candidate_versions(
                        self@,
                        manifest::query(hal_name, interface, instance),
                    ),
                    g,
                ),
    {
        let ghost q = manifest::query(hal_name, interface, instance);
        let ghost all = manifest::candidate_versions(self@, q);
        let ghost may_reply = replies(*normalize);
        let mut i: usize = 0;
        assert(self@.skip(0) == self@);
        while i < self.hals.len()
            invariant
                i <= self.hals.len(),
                q == manifest::query(hal_name, interface, instance),
                all == manifest::candidate_versions(self@, q),
                may_reply == replies(*normalize),
                accepts_search(*normalize, manifest::candidate_versions(self@.skip(i as int), q)),
                forall|r: Option<i32>| #[trigger]
                    may_find(manifest::candidate_versions(self@.skip(i as int), q), may_reply, r)
                        ==> may_find(all, may_reply, r),
            decreases self.hals.len() - i,
        {
            let hal = &self.hals[i];
            let ghost here = manifest::candidate_versions(self@.skip(i as int), q);
            let ghost rest = manifest::candidate_versions(self@.skip(i + 1), q);
            assert(self@.skip(i as int).first() == hal@);
            assert(self@.skip(i as int).drop_first() == self@.skip(i + 1));
            if hal.references_aidl_instance(hal_name, interface, instance) {
                assert(here == hal@.versions + rest);
                proof {
                    if !is_total(*normalize) {
                        lemma_search_stays_within_parts(
                            hal@.versions,
                            rest,
                            domain(*normalize),
                            may_reply,
                        );
                    }
                }
                let found = find_usable_version(&hal.versions, normalize);
                if found.is_some() {
                    proof {
                        lemma_find_in_concatenation(hal@.versions, rest, may_reply, found, found);
                        lemma_find_under_any_model(all, *normalize, found);
                    }
                    return found;
                }
                assert forall|r: Option<i32>| #[trigger] may_find(
                    rest,
                    may_reply,
                    r,
                ) implies may_find(all, may_reply, r) by {
                    lemma_find_in_concatenation(hal@.versions, rest, may_reply, found, r);
                }
            }
            i += 1;
        }
        assert(self@.skip(i as int) == Seq::<manifest::Hal>::empty());
        proof {
            assert(may_find(
                manifest::candidate_versions(self@.skip(i as int), q),
                may_reply,
                None,
            ));
            lemma_find_under_any_model(all, *normalize, None);
        }
        None
    }
}

/// What is found with every model that `normalize` may answer as.
proof fn lemma_find_under_any_model<F: Fn(i32) -> Option<i32>>(
    versions: Seq<Seq<char>>,
    normalize: F,
    r: Option<i32>,
)
    requires
        may_find(versions, replies(normalize), r),
    ensures
        forall|g: spec_fn(i32) -> Option<i32>| #[trigger]
            normalizes_as(normalize, g) ==> r == first_usable_number(versions, g),
{
    assert forall|g: spec_fn(i32) -> Option<i32>| #[trigger] normalizes_as(normalize, g) implies r
        == first_usable_number(versions, g) by {
        lemma_find_is_unique(versions, replies(normalize), g, r);
    }
}

/// What a deserialized text, or the error of deserializing it, answers when it
/// is asked for a version. A deserializer's error is handed on; otherwise the
/// manifest's versions are read in order.
pub open spec fn answers_version<F: Fn(i32) -> Option<i32>, E>(
    document: Result<ManifestXml, E>,
    q: Query,
    normalize: F,
    r: Result<Option<i32>, VintfError<E>>,
) -> bool {
    match document {
        Err(e) => r == Err::<Option<i32>, VintfError<E>>(VintfError::Deserialize(e)),
        Ok(m) => {
            let versions = manifest::candidate_versions(m@, q);
            match r {
                Ok(version) => {
                    &&& may_yield(versions, replies(normalize), Ok(version))
                    &&& forall|g: spec_fn(i32) -> Option<i32>| #[trigger]
                        normalizes_as(normalize, g) ==> first_usable(versions, g) == Ok::<
                            Option<i32>,
                            Seq<char>,
                        >(version)
                },
                Err(VintfError::InvalidVersion(invalid)) => {
                    &&& invalid.is_founded()
                    &&& may_yield(versions, replies(normalize), Err(invalid.text@))
                    &&& forall|g: spec_fn(i32) -> Option<i32>| #[trigger]
                        normalizes_as(normalize, g) ==> first_usable(versions, g) == Err::<
                            Option<i32>,
                            Seq<char>,
                        >(invalid.text@)
                },
                Err(VintfError::Deserialize(_)) => false,
            }
        },
    }
}

/// Finds the version that a deserialized text states for the instance.
pub fn aidl_hal_version_in<F: Fn(i32) -> Option<i32>, E>(
    document: Result<ManifestXml, E>,
    hal_name: &str,
    interface: &str,
    instance: &str,
    normalize: &F,
) -> (r: Result<Option<i32>, VintfError<E>>)
    requires
        document matches Ok(m) ==> accepts(
            *normalize,
            manifest::candidate_versions(m@, manifest::query(hal_name, interface, instance)),
        ),
    ensures
        answers_version(
            document,
            manifest::query(hal_name, interface, instance),
            *normalize,
            r,
        ),
{
    match document {
        Err(e) => Err(VintfError::Deserialize(e)),
        Ok(m) => match m.aidl_hal_version(hal_name, interface, instance, normalize) {
            Ok(version) => Ok(version),
            Err(invalid) => Err(VintfError::InvalidVersion(invalid)),
        },
    }
}

/// Finds the version that the manifest text `xml` states for the instance.
///
/// `deserialize` turns the text into a manifest or gives its own error.
pub fn parse_aidl_hal_version_xml<
    F: Fn(i32) -> Option<i32>,
    D: Fn(&str) -> Result<ManifestXml, E>,
    E,
>(
    xml: &str,
    hal_name: &str,
    interface: &str,
    instance: &str,
    normalize: F,
    deserialize: D,
) -> (r: Result<Option<i32>, VintfError<E>>)
    requires
        deserialize.requires((xml,)),
        forall|m: ManifestXml| #[trigger]
            deserialize.ensures((xml,), Ok::<ManifestXml, E>(m)) ==> accepts(
                normalize,
                manifest::candidate_versions(m@, manifest::query(hal_name, interface, instance)),
            ),
    ensures
        exists|document: Result<ManifestXml, E>| #[trigger]
            deserialize.ensures((xml,), document) && answers_version(
                document,
                manifest::query(hal_name, interface, instance),
                normalize,
                r,
            ),
{
    aidl_hal_version_in(deserialize(xml), hal_name, interface, instance, &normalize)
}

/// What a deserialized text, or the error of deserializing it, answers when it
/// is asked whether it declares the instance.
pub open spec fn answers_instance<E>(
    document: Result<ManifestXml, E>,
    q: Query,
    r: Result<bool, VintfError<E>>,
) -> bool {
    match document {
        Err(e) => r == Err::<bool, VintfError<E>>(VintfError::Deserialize(e)),
        Ok(m) => r == Ok::<bool, VintfError<E>>(manifest::declares(m@, q)),
    }
}

/// Tests whether a deserialized text declares the instance.
pub fn aidl_hal_instance_in<E>(
    document: Result<ManifestXml, E>,
    hal_name: &str,
    interface: &str,
    instance: &str,
) -> (r: Result<bool, VintfError<E>>)
    ensures
        answers_instance(document, manifest::query(hal_name, interface, instance), r),
{
    match document {
        Err(e) => Err(VintfError::Deserialize(e)),
        Ok(m) => Ok(m.declares_aidl_instance(hal_name, interface, instance)),
    }
}

/// Tests whether the manifest text `xml` declares the instance, with or without
/// a version.
///
/// `deserialize` turns the text into a manifest or gives its own error.
pub fn parse_aidl_hal_instance_xml<D: Fn(&str) -> Result<ManifestXml, E>, E>(
    xml: &str,
    hal_name: &str,
    interface: &str,
    instance: &str,
    deserialize: D,
) -> (r: Result<bool, VintfError<E>>)
    requires
        deserialize.requires((xml,)),
    ensures
        exists|document: Result<ManifestXml, E>| #[trigger]
            deserialize.ensures((xml,), document) && answers_instance(
                document,
                manifest::query(hal_name, interface, instance),
                r,
            ),
{
    aidl_hal_instance_in(deserialize(xml), hal_name, interface, instance)
}

} // verus!
