//! What holds of the library as a whole.

use vstd::prelude::*;

use crate::manifest;
use crate::manifest::{Hal, Interface, ManifestXml, Query};
use crate::paths;
use crate::resolve;
use crate::text;
use crate::version;
use crate::version::VintfError;

verus! {

// ---------------------------------------------------------------------------
// Texts
// ---------------------------------------------------------------------------

/// Whether all of `s` is white space.
pub open spec fn all_white_space(s: Seq<char>) -> bool {
    forall|i: int| 0 <= i < s.len() ==> text::is_white_space(#[trigger] s[i])
}

/// Trimming the start of a concatenation.
proof fn lemma_trimmed_start_of_concatenation(s: Seq<char>, t: Seq<char>)
    ensures
        text::trimmed_start(s + t) == if text::trimmed_start(s).len() == 0 {
            text::trimmed_start(t)
        } else {
            text::trimmed_start(s) + t
        },
    decreases s.len(),
{
    if s.len() == 0 {
        assert(s + t == t);
    } else {
        assert((s + t).first() == s.first());
        assert((s + t).drop_first() == s.drop_first() + t);
        lemma_trimmed_start_of_concatenation(s.drop_first(), t);
    }
}

/// White space trims to nothing, from the start.
proof fn lemma_white_space_trims_to_nothing(s: Seq<char>)
    requires
        all_white_space(s),
    ensures
        text::trimmed_start(s).len() == 0,
    decreases s.len(),
{
    if s.len() > 0 {
        assert(text::is_white_space(s[0]));
        assert forall|i: int| 0 <= i < s.drop_first().len() implies text::is_white_space(
            #[trigger] s.drop_first()[i],
        ) by {
            assert(s.drop_first()[i] == s[i + 1]);
        }
        lemma_white_space_trims_to_nothing(s.drop_first());
    }
}

/// White space at the end does not outlast trimming the end.
proof fn lemma_trimmed_end_of_padded(s: Seq<char>, after: Seq<char>)
    requires
        all_white_space(after),
    ensures
        text::trimmed_end(s + after) == text::trimmed_end(s),
    decreases after.len(),
{
    if after.len() == 0 {
        assert(s + after == s);
    } else {
        assert((s + after).last() == after.last());
        assert(text::is_white_space(after[after.len() - 1]));
        assert((s + after).drop_last() == s + after.drop_last());
        assert forall|i: int| 0 <= i < after.drop_last().len() implies text::is_white_space(
            #[trigger] after.drop_last()[i],
        ) by {
            assert(after.drop_last()[i] == after[i]);
        }
        lemma_trimmed_end_of_padded(s, after.drop_last());
    }
}

/// White space around a text does not outlast trimming.
pub proof fn law_padding_is_trimmed(before: Seq<char>, s: Seq<char>, after: Seq<char>)
    requires
        all_white_space(before),
        all_white_space(after),
    ensures
        text::trimmed(before + s + after) == text::trimmed(s),
{
    assert(before + s + after == before + (s + after));
    lemma_white_space_trims_to_nothing(before);
    lemma_white_space_trims_to_nothing(after);
    lemma_trimmed_start_of_concatenation(before, s + after);
    lemma_trimmed_start_of_concatenation(s, after);
    if text::trimmed_start(s).len() == 0 {
        assert(text::trimmed_start(after) == text::trimmed_start(s));
    } else {
        lemma_trimmed_end_of_padded(text::trimmed_start(s), after);
    }
}

/// Trimming the end leaves a beginning of the text, with no white space at its
/// end.
proof fn lemma_trimmed_end_shape(s: Seq<char>)
    ensures
        text::trimmed_end(s).is_prefix_of(s),
        text::trimmed_end(s).len() > 0 ==> !text::is_white_space(text::trimmed_end(s).last()),
    decreases s.len(),
{
    if s.len() > 0 && text::is_white_space(s.last()) {
        lemma_trimmed_end_shape(s.drop_last());
        assert(s.drop_last().is_prefix_of(s));
    }
}

/// Trimming the start leaves a text with no white space at its start.
proof fn lemma_trimmed_start_shape(s: Seq<char>)
    ensures
        text::trimmed_start(s).len() > 0 ==> !text::is_white_space(
            text::trimmed_start(s).first(),
        ),
    decreases s.len(),
{
    if s.len() > 0 && text::is_white_space(s.first()) {
        lemma_trimmed_start_shape(s.drop_first());
    }
}

/// A text is trimmed exactly where no white space stands at either end, and
/// trimming a second time changes nothing.
pub proof fn law_trimming_is_idempotent(s: Seq<char>)
    ensures
        text::trimmed(text::trimmed(s)) == text::trimmed(s),
        text::trimmed(s) == s <==> (s.len() > 0 ==> !text::is_white_space(s.first())
            && !text::is_white_space(s.last())),
{
    lemma_trimmed_start_shape(s);
    lemma_trimmed_end_shape(text::trimmed_start(s));
    let t = text::trimmed(s);
    if t.len() > 0 {
        assert(t.first() == text::trimmed_start(s).first());
    }
    assert(text::trimmed_start(t) == t);
    assert(text::trimmed_end(t) == t);
}

// ---------------------------------------------------------------------------
// Numbers
// ---------------------------------------------------------------------------

/// A digit by itself denotes its own value.
pub proof fn law_digit_is_a_number(c: char)
    requires
        '0' <= c <= '9',
    ensures
        text::denoted_i32(seq![c]) == Some((c as int - 48) as i32),
{
    let s = seq![c];
    assert(s.drop_last() == Seq::<char>::empty());
    assert(text::digits_value(s.drop_last()) == 0);
    assert(text::digits_value(s) == c as int - 48);
}

/// A digit behind digits makes ten times their number and the digit's value, as
/// long as that fits.
pub proof fn law_digit_behind_a_number(s: Seq<char>, c: char)
    requires
        s.len() > 0,
        forall|i: int| 0 <= i < s.len() ==> '0' <= #[trigger] s[i] <= '9',
        '0' <= c <= '9',
    ensures
        match text::denoted_i32(s) {
            Some(number) => text::denoted_i32(s.push(c)) == if 10 * number + (c as int - 48)
                <= i32::MAX {
                Some((10 * number + (c as int - 48)) as i32)
            } else {
                None
            },
            None => text::denoted_i32(s.push(c)) is None,
        },
{
    let longer = s.push(c);
    assert(longer.drop_last() == s);
    assert(longer.first() == s[0] && s.first() == s[0]);
    assert(text::all_digits(s));
    assert(text::all_digits(longer));
}

/// A plus sign in front of digits changes nothing, and a minus sign turns their
/// number around.
pub proof fn law_sign_in_front_of_a_number(s: Seq<char>)
    requires
        s.len() > 0,
        forall|i: int| 0 <= i < s.len() ==> '0' <= #[trigger] s[i] <= '9',
    ensures
        text::denoted_i32(seq!['+'] + s) == text::denoted_i32(s),
        text::denoted_i32(s) matches Some(number) ==> text::denoted_i32(seq!['-'] + s) == Some(
            (-number) as i32,
        ),
{
    assert((seq!['+'] + s).drop_first() == s);
    assert((seq!['-'] + s).drop_first() == s);
    assert(s.first() == s[0]);
    assert(text::all_digits(s));
}

/// A text that is empty, or nothing but a sign, or has anything but a digit
/// behind its first character, or neither a digit nor a sign there, is no number.
pub proof fn law_no_number(s: Seq<char>)
    requires
        s.len() == 0 || s == seq!['+'] || s == seq!['-'] || exists|i: int|
            0 <= i < s.len() && !('0' <= #[trigger] s[i] <= '9') && (i > 0 || s[i] != '+' && s[i]
                != '-'),
    ensures
        text::denoted_i32(s) is None,
{
    if exists|i: int|
        0 <= i < s.len() && !('0' <= #[trigger] s[i] <= '9') && (i > 0 || s[i] != '+' && s[i]
            != '-') {
        let i = choose|i: int|
            0 <= i < s.len() && !('0' <= #[trigger] s[i] <= '9') && (i > 0 || s[i] != '+' && s[i]
                != '-');
        if s.first() == '+' || s.first() == '-' {
            assert(!text::is_digit(s.drop_first()[i - 1]));
        } else {
            assert(!text::is_digit(s[i]));
        }
    }
}

// ---------------------------------------------------------------------------
// Matching
// ---------------------------------------------------------------------------

/// Whether two texts differ at most in the white space around them.
pub open spec fn alike(a: Seq<char>, b: Seq<char>) -> bool {
    text::trimmed(a) == text::trimmed(b)
}

/// Whether two optional texts are both missing, or alike.
pub open spec fn alike_options(a: Option<Seq<char>>, b: Option<Seq<char>>) -> bool {
    match (a, b) {
        (Some(s), Some(t)) => alike(s, t),
        (None, None) => true,
        _ => false,
    }
}

/// Whether two lists of texts are alike, one by one.
pub open spec fn alike_texts(a: Seq<Seq<char>>, b: Seq<Seq<char>>) -> bool {
    &&& a.len() == b.len()
    &&& forall|i: int| #![trigger a[i]] #![trigger b[i]] 0 <= i < a.len() ==> alike(a[i], b[i])
}

/// Whether two `<interface>` elements are alike, text by text.
pub open spec fn alike_interfaces(a: Interface, b: Interface) -> bool {
    alike_options(a.name, b.name) && alike_texts(a.instances, b.instances)
}

/// Whether what two `<hal>` elements say apart from their versions is alike,
/// text by text.
pub open spec fn alike_hals(a: Hal, b: Hal) -> bool {
    &&& alike_options(a.format, b.format)
    &&& alike_options(a.name, b.name)
    &&& alike_texts(a.fqnames, b.fqnames)
    &&& a.interfaces.len() == b.interfaces.len()
    &&& forall|i: int|
        #![trigger a.interfaces[i]]
        #![trigger b.interfaces[i]]
        0 <= i < a.interfaces.len() ==> alike_interfaces(a.interfaces[i], b.interfaces[i])
}

/// Alike lists list the same.
proof fn lemma_alike_texts_list_alike(a: Seq<Seq<char>>, b: Seq<Seq<char>>, expected: Seq<char>)
    requires
        alike_texts(a, b),
    ensures
        manifest::lists(a, expected) == manifest::lists(b, expected),
{
    if manifest::lists(a, expected) {
        let i = choose|i: int|
            0 <= i < a.len() && text::trimmed(#[trigger] a[i]) == expected;
        assert(text::trimmed(b[i]) == expected);
    }
    if manifest::lists(b, expected) {
        let i = choose|i: int|
            0 <= i < b.len() && text::trimmed(#[trigger] b[i]) == expected;
        assert(text::trimmed(a[i]) == expected);
    }
}

/// White space around the texts of a HAL, and the versions that it states, have
/// no say in whether it references an instance.
pub proof fn law_alike_hals_reference_alike(a: Hal, b: Hal, q: Query)
    requires
        alike_hals(a, b),
    ensures
        a.references_aidl_instance(q) == b.references_aidl_instance(q),
{
    lemma_alike_texts_list_alike(
        a.fqnames,
        b.fqnames,
        manifest::fqname(q.interface, q.instance),
    );
    assert forall|i: int| #![trigger a.interfaces[i]] #![trigger b.interfaces[i]] 0 <= i
        < a.interfaces.len() implies a.interfaces[i].references(q.interface, q.instance)
        == b.interfaces[i].references(q.interface, q.instance) by {
        lemma_alike_texts_list_alike(
            a.interfaces[i].instances,
            b.interfaces[i].instances,
            q.instance,
        );
    }
}

/// Whether a manifest declares an instance depends neither on the white space
/// around its texts nor on the versions that it states or leaves out.
pub proof fn law_declaring_needs_no_version(a: Seq<Hal>, b: Seq<Hal>, q: Query)
    requires
        a.len() == b.len(),
        forall|i: int| 0 <= i < a.len() ==> alike_hals(#[trigger] a[i], b[i]),
    ensures
        manifest::declares(a, q) == manifest::declares(b, q),
{
    assert forall|i: int| #![trigger a[i]] #![trigger b[i]] 0 <= i < a.len() implies a[i]
        .references_aidl_instance(q) == b[i].references_aidl_instance(q) by {
        law_alike_hals_reference_alike(a[i], b[i], q);
    }
    if manifest::declares(a, q) {
        let i = choose|i: int|
            0 <= i < a.len() && (#[trigger] a[i]).references_aidl_instance(q);
        assert(b[i].references_aidl_instance(q));
    }
    if manifest::declares(b, q) {
        let i = choose|i: int|
            0 <= i < b.len() && (#[trigger] b[i]).references_aidl_instance(q);
        assert(a[i].references_aidl_instance(q));
    }
}

/// A HAL may list an instance either way: as an `<fqname>`, or under an
/// `<interface>`. The names are ones that no white space surrounds, as those in
/// a manifest count once trimmed.
pub proof fn law_fqname_and_interface_forms(
    hal: Hal,
    interface: Seq<char>,
    instance: Seq<char>,
    i: int,
    j: int,
)
    requires
        text::trimmed(interface) == interface,
        text::trimmed(instance) == instance,
    ensures
        0 <= i < hal.fqnames.len() && hal.fqnames[i] == manifest::fqname(interface, instance)
            ==> hal.references_instance(interface, instance),
        0 <= i < hal.interfaces.len() && hal.interfaces[i].name == Some(interface) && 0 <= j
            < hal.interfaces[i].instances.len() && hal.interfaces[i].instances[j] == instance
            ==> hal.references_instance(interface, instance),
{
    let name = manifest::fqname(interface, instance);
    law_trimming_is_idempotent(interface);
    law_trimming_is_idempotent(instance);
    law_trimming_is_idempotent(name);
    assert(text::trimmed(name) == name) by {
        reveal_strlit("/");
        assert(name.first() == if interface.len() > 0 {
            interface.first()
        } else {
            '/'
        });
        assert(name.last() == if instance.len() > 0 {
            instance.last()
        } else {
            '/'
        });
    }
    if 0 <= i < hal.interfaces.len() && hal.interfaces[i].name == Some(interface) && 0 <= j
        < hal.interfaces[i].instances.len() && hal.interfaces[i].instances[j] == instance {
        assert(manifest::lists(hal.interfaces[i].instances, instance));
        assert(hal.interfaces[i].references(interface, instance));
    }
}

/// A HAL that does not reference the instance can stand anywhere in a manifest,
/// or be left out: neither the versions read nor the declaration change.
pub proof fn law_unrelated_hal_is_ignored(hals: Seq<Hal>, i: int, unrelated: Hal, q: Query)
    requires
        0 <= i <= hals.len(),
        !unrelated.references_aidl_instance(q),
    ensures
        manifest::candidate_versions(hals.insert(i, unrelated), q) == manifest::candidate_versions(
            hals,
            q,
        ),
        manifest::declares(hals.insert(i, unrelated), q) == manifest::declares(hals, q),
    decreases hals.len(),
{
    let more = hals.insert(i, unrelated);
    if i == 0 {
        assert(more.first() == unrelated);
        assert(more.drop_first() == hals);
    } else {
        assert(more.first() == hals.first());
        assert(more.drop_first() == hals.drop_first().insert(i - 1, unrelated));
        law_unrelated_hal_is_ignored(hals.drop_first(), i - 1, unrelated, q);
    }
    if manifest::declares(hals, q) {
        let k = choose|k: int|
            0 <= k < hals.len() && (#[trigger] hals[k]).references_aidl_instance(q);
        assert(more[if k < i {
            k
        } else {
            k + 1
        }] == hals[k]);
    }
    if manifest::declares(more, q) {
        let k = choose|k: int|
            0 <= k < more.len() && (#[trigger] more[k]).references_aidl_instance(q);
        assert(k != i);
        assert(more[k] == hals[if k < i {
            k
        } else {
            k - 1
        }]);
    }
}

/// Only a manifest that declares the instance holds versions to read for it.
pub proof fn law_candidates_come_from_declaring_hals(hals: Seq<Hal>, q: Query)
    ensures
        manifest::candidate_versions(hals, q).len() > 0 ==> manifest::declares(hals, q),
    decreases hals.len(),
{
    if hals.len() > 0 {
        if hals.first().references_aidl_instance(q) {
            assert(hals[0].references_aidl_instance(q));
        } else {
            law_candidates_come_from_declaring_hals(hals.drop_first(), q);
            if manifest::declares(hals.drop_first(), q) {
                let k = choose|k: int|
                    0 <= k < hals.drop_first().len() && (#[trigger] hals.drop_first()[k])
                        .references_aidl_instance(q);
                assert(hals[k + 1].references_aidl_instance(q));
            }
        }
    }
}

// ---------------------------------------------------------------------------
// Versions of one manifest
// ---------------------------------------------------------------------------

/// A manifest gives a version, or an invalid one, only for an instance that it
/// declares.
pub proof fn law_version_implies_declaration(
    hals: Seq<Hal>,
    q: Query,
    g: spec_fn(i32) -> Option<i32>,
)
    ensures
        !manifest::declares(hals, q) ==> version::first_usable(
            manifest::candidate_versions(hals, q),
            g,
        ) == Ok::<Option<i32>, Seq<char>>(None),
        !manifest::declares(hals, q) ==> version::first_usable_number(
            manifest::candidate_versions(hals, q),
            g,
        ) is None,
{
    law_candidates_come_from_declaring_hals(hals, q);
}

/// A manifest gives a version, or an invalid one, only for an instance that it
/// declares, with whatever normalization.
pub proof fn law_any_version_implies_declaration(
    hals: Seq<Hal>,
    q: Query,
    may_reply: spec_fn(i32, Option<i32>) -> bool,
)
    requires
        !manifest::declares(hals, q),
    ensures
        forall|r: Result<Option<i32>, Seq<char>>| #[trigger]
            version::may_yield(manifest::candidate_versions(hals, q), may_reply, r) <==> r == Ok::<
                Option<i32>,
                Seq<char>,
            >(None),
        forall|r: Option<i32>| #[trigger]
            version::may_find(manifest::candidate_versions(hals, q), may_reply, r) <==> r is None,
{
    law_candidates_come_from_declaring_hals(hals, q);
}

/// A version that the normalization does not support is ignored, wherever it
/// stands.
pub proof fn law_unsupported_version_is_ignored(
    before: Seq<Seq<char>>,
    unsupported: Seq<char>,
    after: Seq<Seq<char>>,
    g: spec_fn(i32) -> Option<i32>,
)
    requires
        text::denoted_i32(text::trimmed(unsupported)) matches Some(number) && g(number) is None,
    ensures
        version::first_usable(before + seq![unsupported] + after, g) == version::first_usable(
            before + after,
            g,
        ),
    decreases before.len(),
{
    let with = before + seq![unsupported] + after;
    let without = before + after;
    if before.len() == 0 {
        assert(with.first() == unsupported);
        assert(with.drop_first() == after);
        assert(without == after);
    } else {
        assert(with.first() == before.first());
        assert(without.first() == before.first());
        assert(with.drop_first() == before.drop_first() + seq![unsupported] + after);
        assert(without.drop_first() == before.drop_first() + after);
        law_unsupported_version_is_ignored(before.drop_first(), unsupported, after, g);
    }
}

/// What stands behind a usable version, or behind one that is no number, is not
/// read.
pub proof fn law_first_decision_stands(
    versions: Seq<Seq<char>>,
    more: Seq<Seq<char>>,
    g: spec_fn(i32) -> Option<i32>,
)
    ensures
        version::first_usable(versions + more, g) == if version::first_usable(versions, g) == Ok::<
            Option<i32>,
            Seq<char>,
        >(None) {
            version::first_usable(more, g)
        } else {
            version::first_usable(versions, g)
        },
    decreases versions.len(),
{
    if versions.len() == 0 {
        assert(versions + more == more);
    } else {
        assert((versions + more).first() == versions.first());
        assert((versions + more).drop_first() == versions.drop_first() + more);
        law_first_decision_stands(versions.drop_first(), more, g);
    }
}

/// What stands behind the first texts of alike lists is alike.
proof fn lemma_alike_tails(a: Seq<Seq<char>>, b: Seq<Seq<char>>)
    requires
        alike_texts(a, b),
        a.len() > 0,
    ensures
        alike_texts(a.drop_first(), b.drop_first()),
{
    assert forall|i: int|
        #![trigger a.drop_first()[i]]
        #![trigger b.drop_first()[i]]
        0 <= i < a.drop_first().len() implies alike(a.drop_first()[i], b.drop_first()[i]) by {
        assert(a.drop_first()[i] == a[i + 1]);
        assert(b.drop_first()[i] == b[i + 1]);
    }
}

/// White space around versions has no say in which is used.
pub proof fn law_alike_versions_yield_alike(
    a: Seq<Seq<char>>,
    b: Seq<Seq<char>>,
    g: spec_fn(i32) -> Option<i32>,
)
    requires
        alike_texts(a, b),
    ensures
        match (version::first_usable(a, g), version::first_usable(b, g)) {
            (Ok(v), Ok(w)) => v == w,
            (Err(s), Err(t)) => alike(s, t),
            _ => false,
        },
    decreases a.len(),
{
    if a.len() > 0 {
        assert(alike(a[0], b[0]));
        lemma_alike_tails(a, b);
        law_alike_versions_yield_alike(a.drop_first(), b.drop_first(), g);
    }
}

/// Whether each of `versions` is a number that the normalization does not
/// support.
pub open spec fn all_unsupported(
    versions: Seq<Seq<char>>,
    g: spec_fn(i32) -> Option<i32>,
) -> bool {
    forall|k: int|
        0 <= k < versions.len() ==> (text::denoted_i32(
            text::trimmed(#[trigger] versions[k]),
        ) matches Some(number) && g(number) is None)
}

/// Whether the version at `k` is the first that is not an unsupported number.
pub open spec fn decides(
    versions: Seq<Seq<char>>,
    g: spec_fn(i32) -> Option<i32>,
    k: int,
) -> bool {
    0 <= k < versions.len() && all_unsupported(versions.take(k), g)
}

/// Reading versions in order is decided by the first that is not an unsupported
/// number: it is the version that comes out, normalized, or it is no number and
/// comes out as invalid. Nothing comes out only where there is no such version.
pub proof fn law_reading_stops_at_the_first_decision(
    versions: Seq<Seq<char>>,
    g: spec_fn(i32) -> Option<i32>,
)
    ensures
        match version::first_usable(versions, g) {
            Ok(Some(normalized)) => exists|k: int| #[trigger]
                decides(versions, g, k) && version::usable(versions[k], g) == Some(normalized),
            Ok(None) => all_unsupported(versions, g),
            Err(invalid) => exists|k: int| #[trigger]
                decides(versions, g, k) && versions[k] == invalid && text::denoted_i32(
                    text::trimmed(invalid),
                ) is None,
        },
    decreases versions.len(),
{
    if versions.len() == 0 {
    } else if version::usable(versions.first(), g) is Some || text::denoted_i32(
        text::trimmed(versions.first()),
    ) is None {
        assert(decides(versions, g, 0));
        assert(versions[0] == versions.first());
    } else {
        let rest = versions.drop_first();
        law_reading_stops_at_the_first_decision(rest, g);
        assert forall|k: int| #[trigger] decides(rest, g, k) implies decides(versions, g, k + 1)
            && versions[k + 1] == rest[k] by {
            assert forall|m: int| 0 <= m < k + 1 implies (text::denoted_i32(
                text::trimmed(#[trigger] versions.take(k + 1)[m]),
            ) matches Some(number) && g(number) is None) by {
                if m > 0 {
                    assert(rest.take(k)[m - 1] == versions[m]);
                }
            }
        }
        match version::first_usable(rest, g) {
            Ok(Some(normalized)) => {
                let k = choose|k: int| #[trigger]
                    decides(rest, g, k) && version::usable(rest[k], g) == Some(normalized);
                assert(decides(versions, g, k + 1));
            },
            Ok(None) => {
                assert forall|m: int| 0 <= m < versions.len() implies (text::denoted_i32(
                    text::trimmed(#[trigger] versions[m]),
                ) matches Some(number) && g(number) is None) by {
                    if m > 0 {
                        assert(rest[m - 1] == versions[m]);
                    }
                }
            },
            Err(invalid) => {
                let k = choose|k: int| #[trigger]
                    decides(rest, g, k) && rest[k] == invalid && text::denoted_i32(
                        text::trimmed(invalid),
                    ) is None;
                assert(decides(versions, g, k + 1));
            },
        }
    }
}

/// Whether none of `versions` is usable.
pub open spec fn none_usable(
    versions: Seq<Seq<char>>,
    g: spec_fn(i32) -> Option<i32>,
) -> bool {
    forall|k: int| 0 <= k < versions.len() ==> version::usable(#[trigger] versions[k], g) is None
}

/// The search finds a usable version with none before it, and finds nothing only
/// where none is usable. Versions that are no number do not stop it.
pub proof fn law_search_finds_the_first(
    versions: Seq<Seq<char>>,
    g: spec_fn(i32) -> Option<i32>,
)
    ensures
        match version::first_usable_number(versions, g) {
            Some(found) => exists|k: int|
                0 <= k < versions.len() && version::usable(#[trigger] versions[k], g) == Some(found)
                    && none_usable(versions.take(k), g),
            None => none_usable(versions, g),
        },
    decreases versions.len(),
{
    if versions.len() > 0 {
        let rest = versions.drop_first();
        assert(versions[0] == versions.first());
        if version::usable(versions.first(), g) is Some {
            assert(none_usable(versions.take(0), g));
        } else {
            law_search_finds_the_first(rest, g);
            match version::first_usable_number(rest, g) {
                Some(found) => {
                    let k = choose|k: int|
                        0 <= k < rest.len() && version::usable(#[trigger] rest[k], g) == Some(found)
                            && none_usable(rest.take(k), g);
                    assert(versions[k + 1] == rest[k]);
                    assert forall|m: int| 0 <= m < k + 1 implies version::usable(
                        #[trigger] versions.take(k + 1)[m],
                        g,
                    ) is None by {
                        if m > 0 {
                            assert(rest.take(k)[m - 1] == versions[m]);
                        }
                    }
                },
                None => {
                    assert forall|m: int| 0 <= m < versions.len() implies version::usable(
                        #[trigger] versions[m],
                        g,
                    ) is None by {
                        if m > 0 {
                            assert(rest[m - 1] == versions[m]);
                        }
                    }
                },
            }
        }
    }
}

/// A version that is no number, or not a supported one, is passed over by the
/// search, wherever it stands.
pub proof fn law_unusable_version_is_passed_over(
    before: Seq<Seq<char>>,
    unusable: Seq<char>,
    after: Seq<Seq<char>>,
    g: spec_fn(i32) -> Option<i32>,
)
    requires
        version::usable(unusable, g) is None,
    ensures
        version::first_usable_number(before + seq![unusable] + after, g)
            == version::first_usable_number(before + after, g),
    decreases before.len(),
{
    let with = before + seq![unusable] + after;
    let without = before + after;
    if before.len() == 0 {
        assert(with.first() == unusable);
        assert(with.drop_first() == after);
        assert(without == after);
    } else {
        assert(with.first() == before.first());
        assert(without.first() == before.first());
        assert(with.drop_first() == before.drop_first() + seq![unusable] + after);
        assert(without.drop_first() == before.drop_first() + after);
        law_unusable_version_is_passed_over(before.drop_first(), unusable, after, g);
    }
}

/// Where reading the versions in order ends without an error, the search finds
/// the same version, or none either.
pub proof fn law_search_agrees_with_reading(
    versions: Seq<Seq<char>>,
    g: spec_fn(i32) -> Option<i32>,
)
    ensures
        version::first_usable(versions, g) matches Ok(found) ==> version::first_usable_number(
            versions,
            g,
        ) == found,
    decreases versions.len(),
{
    if versions.len() > 0 {
        law_search_agrees_with_reading(versions.drop_first(), g);
    }
}

/// White space around versions has no say in which the search finds.
pub proof fn law_search_among_alike_versions(
    a: Seq<Seq<char>>,
    b: Seq<Seq<char>>,
    g: spec_fn(i32) -> Option<i32>,
)
    requires
        alike_texts(a, b),
    ensures
        version::first_usable_number(a, g) == version::first_usable_number(b, g),
    decreases a.len(),
{
    if a.len() > 0 {
        assert(alike(a[0], b[0]));
        lemma_alike_tails(a, b);
        law_search_among_alike_versions(a.drop_first(), b.drop_first(), g);
    }
}

/// A usable version with none before it is what the search finds.
proof fn lemma_search_at(
    versions: Seq<Seq<char>>,
    g: spec_fn(i32) -> Option<i32>,
    k: int,
    found: i32,
)
    requires
        0 <= k < versions.len(),
        version::usable(versions[k], g) == Some(found),
        forall|m: int| 0 <= m < k ==> version::usable(#[trigger] versions[m], g) is None,
    ensures
        version::first_usable_number(versions, g) == Some(found),
{
    law_search_finds_the_first(versions, g);
    if let Some(other) = version::first_usable_number(versions, g) {
        let m = choose|m: int|
            0 <= m < versions.len() && version::usable(#[trigger] versions[m], g) == Some(other)
                && none_usable(versions.take(m), g);
        if k < m {
            assert(versions.take(m)[k] == versions[k]);
        }
    }
}

// ---------------------------------------------------------------------------
// Resolution
// ---------------------------------------------------------------------------

/// The versions that the texts state, one by one.
spec fn stated_versions(
    documents: Seq<Option<Seq<Hal>>>,
    q: Query,
    g: spec_fn(i32) -> Option<i32>,
) -> Seq<Option<i32>> {
    documents.map_values(|document: Option<Seq<Hal>>| resolve::text_version(document, q, g))
}

/// The `<version>` texts of the HALs in a text that reference the queried
/// instance. A text that is no manifest (`None`) has none.
pub open spec fn text_candidates(document: Option<Seq<Hal>>, q: Query) -> Seq<Seq<char>> {
    match document {
        None => Seq::empty(),
        Some(hals) => manifest::candidate_versions(hals, q),
    }
}

/// The first text that states a version states the explicit version.
proof fn lemma_first_explicit_at(stated: Seq<Option<i32>>, i: int)
    requires
        0 <= i < stated.len(),
        stated[i] is Some,
        forall|j: int| 0 <= j < i ==> #[trigger] stated[j] is None,
    ensures
        resolve::first_explicit(stated) == stated[i],
    decreases stated.len(),
{
    if i > 0 {
        assert(stated[0] is None);
        assert forall|j: int| 0 <= j < i - 1 implies #[trigger] stated.drop_first()[j] is None by {
            assert(stated.drop_first()[j] == stated[j + 1]);
        }
        lemma_first_explicit_at(stated.drop_first(), i - 1);
    }
}

/// Without a text that states a version there is no explicit version.
proof fn lemma_no_explicit(stated: Seq<Option<i32>>)
    requires
        forall|j: int| 0 <= j < stated.len() ==> #[trigger] stated[j] is None,
    ensures
        resolve::first_explicit(stated) is None,
    decreases stated.len(),
{
    if stated.len() > 0 {
        assert(stated[0] is None);
        assert forall|j: int| 0 <= j < stated.drop_first().len() implies
            #[trigger] stated.drop_first()[j] is None by {
            assert(stated.drop_first()[j] == stated[j + 1]);
        }
        lemma_no_explicit(stated.drop_first());
    }
}

/// An explicit version is one that a text states, and there is one where a text
/// states any.
proof fn lemma_explicit_is_stated(stated: Seq<Option<i32>>)
    ensures
        match resolve::first_explicit(stated) {
            Some(found) => stated.contains(Some(found)),
            None => forall|j: int| 0 <= j < stated.len() ==> #[trigger] stated[j] is None,
        },
    decreases stated.len(),
{
    if stated.len() > 0 {
        let rest = stated.drop_first();
        lemma_explicit_is_stated(rest);
        assert(stated[0] == stated.first());
        if stated.first() is None {
            match resolve::first_explicit(rest) {
                Some(found) => {
                    let j = choose|j: int| 0 <= j < rest.len() && rest[j] == Some(found);
                    assert(stated[j + 1] == rest[j]);
                },
                None => {
                    assert forall|j: int| 0 <= j < stated.len() implies
                        #[trigger] stated[j] is None by {
                        if j > 0 {
                            assert(rest[j - 1] == stated[j]);
                        }
                    }
                },
            }
        }
    }
}

/// A text with no usable version states none.
proof fn lemma_unusable_text(
    document: Option<Seq<Hal>>,
    q: Query,
    g: spec_fn(i32) -> Option<i32>,
)
    ensures
        resolve::text_version(document, q, g) is None <==> none_usable(
            text_candidates(document, q),
            g,
        ),
{
    let versions = text_candidates(document, q);
    law_search_finds_the_first(versions, g);
    if let Some(found) = version::first_usable_number(versions, g) {
        let k = choose|k: int|
            0 <= k < versions.len() && version::usable(#[trigger] versions[k], g) == Some(found)
                && none_usable(versions.take(k), g);
        assert(version::usable(versions[k], g) is Some);
    }
}

/// The first usable version over all texts wins, whatever else the texts state
/// or declare, versions that are no number among it.
pub proof fn law_explicit_version_wins(
    documents: Seq<Option<Seq<Hal>>>,
    q: Query,
    g: spec_fn(i32) -> Option<i32>,
    i: int,
    k: int,
    found: i32,
)
    requires
        0 <= i < documents.len(),
        0 <= k < text_candidates(documents[i], q).len(),
        version::usable(text_candidates(documents[i], q)[k], g) == Some(found),
        forall|m: int|
            0 <= m < k ==> version::usable(
                #[trigger] text_candidates(documents[i], q)[m],
                g,
            ) is None,
        forall|j: int|
            0 <= j < i ==> none_usable(text_candidates(#[trigger] documents[j], q), g),
    ensures
        resolve::resolution(documents, q, g) == Some(found),
{
    let stated = stated_versions(documents, q, g);
    lemma_search_at(text_candidates(documents[i], q), g, k, found);
    assert(stated[i] == Some(found));
    assert forall|j: int| 0 <= j < i implies #[trigger] stated[j] is None by {
        lemma_unusable_text(documents[j], q, g);
    }
    lemma_first_explicit_at(stated, i);
}

/// Whether `found` is what a candidate version in one of the texts gives.
pub open spec fn is_stated(
    documents: Seq<Option<Seq<Hal>>>,
    q: Query,
    g: spec_fn(i32) -> Option<i32>,
    found: i32,
) -> bool {
    exists|i: int, k: int|
        0 <= i < documents.len() && 0 <= k < text_candidates(documents[i], q).len()
            && version::usable(#[trigger] text_candidates(documents[i], q)[k], g) == Some(found)
}

/// Wherever a usable version stands in the texts, the resolution is one that the
/// texts state: the omitted version does not take its place.
pub proof fn law_usable_version_is_not_lost(
    documents: Seq<Option<Seq<Hal>>>,
    q: Query,
    g: spec_fn(i32) -> Option<i32>,
    i: int,
    k: int,
)
    requires
        0 <= i < documents.len(),
        0 <= k < text_candidates(documents[i], q).len(),
        version::usable(text_candidates(documents[i], q)[k], g) is Some,
    ensures
        resolve::resolution(documents, q, g) matches Some(found) && is_stated(
            documents,
            q,
            g,
            found,
        ),
{
    let stated = stated_versions(documents, q, g);
    lemma_unusable_text(documents[i], q, g);
    assert(stated[i] is Some);
    lemma_explicit_is_stated(stated);
    let found = resolve::first_explicit(stated)->0;
    let j = choose|j: int| 0 <= j < stated.len() && stated[j] == Some(found);
    lemma_stated_by_candidate(documents, q, g, j, found);
}

/// What a text states, one of its candidate versions gives.
proof fn lemma_stated_by_candidate(
    documents: Seq<Option<Seq<Hal>>>,
    q: Query,
    g: spec_fn(i32) -> Option<i32>,
    j: int,
    found: i32,
)
    requires
        0 <= j < documents.len(),
        resolve::text_version(documents[j], q, g) == Some(found),
    ensures
        is_stated(documents, q, g, found),
{
    let versions = text_candidates(documents[j], q);
    law_search_finds_the_first(versions, g);
    let m = choose|m: int|
        0 <= m < versions.len() && version::usable(#[trigger] versions[m], g) == Some(found)
            && none_usable(versions.take(m), g);
    assert(version::usable(text_candidates(documents[j], q)[m], g) == Some(found));
}

/// A declared instance for which no text states a usable version has the omitted
/// version.
pub proof fn law_omitted_version(
    documents: Seq<Option<Seq<Hal>>>,
    q: Query,
    g: spec_fn(i32) -> Option<i32>,
)
    requires
        resolve::declared(documents, q),
        forall|i: int|
            0 <= i < documents.len() ==> none_usable(
                text_candidates(#[trigger] documents[i], q),
                g,
            ),
    ensures
        resolve::resolution(documents, q, g) == g(resolve::AIDL_OMITTED_VERSION),
{
    let stated = stated_versions(documents, q, g);
    assert forall|i: int| 0 <= i < stated.len() implies #[trigger] stated[i] is None by {
        lemma_unusable_text(documents[i], q, g);
    }
    lemma_no_explicit(stated);
}

/// A text that does not declare the instance has no version to state for it.
proof fn lemma_undeclaring_text(
    document: Option<Seq<Hal>>,
    q: Query,
    g: spec_fn(i32) -> Option<i32>,
)
    requires
        !resolve::text_declares(document, q),
    ensures
        resolve::text_version(document, q, g) is None,
{
    if let Some(hals) = document {
        law_candidates_come_from_declaring_hals(hals, q);
    }
}

/// An instance that no text declares has no version.
pub proof fn law_undeclared_instance_is_absent(
    documents: Seq<Option<Seq<Hal>>>,
    q: Query,
    g: spec_fn(i32) -> Option<i32>,
)
    requires
        !resolve::declared(documents, q),
    ensures
        resolve::resolution(documents, q, g) is None,
{
    let stated = stated_versions(documents, q, g);
    assert forall|i: int| 0 <= i < stated.len() implies #[trigger] stated[i] is None by {
        assert(!resolve::text_declares(documents[i], q));
        lemma_undeclaring_text(documents[i], q, g);
    }
    lemma_no_explicit(stated);
}

/// A text that states no version can stand anywhere, or be left out.
proof fn lemma_first_explicit_insert(stated: Seq<Option<i32>>, i: int)
    requires
        0 <= i <= stated.len(),
    ensures
        resolve::first_explicit(stated.insert(i, None)) == resolve::first_explicit(stated),
    decreases stated.len(),
{
    let more = stated.insert(i, None);
    if i == 0 {
        assert(more.first() is None);
        assert(more.drop_first() == stated);
    } else {
        assert(more.first() == stated.first());
        assert(more.drop_first() == stated.drop_first().insert(i - 1, None));
        lemma_first_explicit_insert(stated.drop_first(), i - 1);
    }
}

/// A text that is no manifest, or that does not declare the instance, can stand
/// anywhere among the texts, or be left out.
pub proof fn law_unrelated_text_is_ignored(
    documents: Seq<Option<Seq<Hal>>>,
    i: int,
    unrelated: Option<Seq<Hal>>,
    q: Query,
    g: spec_fn(i32) -> Option<i32>,
)
    requires
        0 <= i <= documents.len(),
        !resolve::text_declares(unrelated, q),
    ensures
        resolve::resolution(documents.insert(i, unrelated), q, g) == resolve::resolution(
            documents,
            q,
            g,
        ),
{
    let more = documents.insert(i, unrelated);
    lemma_undeclaring_text(unrelated, q, g);
    lemma_first_explicit_insert(stated_versions(documents, q, g), i);
    assert(stated_versions(more, q, g) == stated_versions(documents, q, g).insert(i, None));
    lemma_declared_insert(documents, i, unrelated, q);
}

/// An instance with a version is declared, and its version is one that a text
/// states, or what the normalization makes of the omitted version.
pub proof fn law_resolution_is_grounded(
    documents: Seq<Option<Seq<Hal>>>,
    q: Query,
    g: spec_fn(i32) -> Option<i32>,
)
    ensures
        resolve::resolution(documents, q, g) matches Some(found) ==> {
            &&& resolve::declared(documents, q)
            &&& is_stated(documents, q, g, found) || g(resolve::AIDL_OMITTED_VERSION) == Some(found)
        },
{
    if let Some(found) = resolve::resolution(documents, q, g) {
        if !resolve::declared(documents, q) {
            law_undeclared_instance_is_absent(documents, q, g);
        }
        let stated = stated_versions(documents, q, g);
        lemma_explicit_is_stated(stated);
        if resolve::first_explicit(stated) is Some {
            let j = choose|j: int| 0 <= j < stated.len() && stated[j] == Some(found);
            lemma_stated_by_candidate(documents, q, g, j, found);
        }
    }
}

/// One text by itself resolves to the first usable version that it states, or,
/// where it states none, to the omitted version if it declares the instance.
pub proof fn law_single_text(
    document: Option<Seq<Hal>>,
    q: Query,
    g: spec_fn(i32) -> Option<i32>,
)
    ensures
        resolve::resolution(seq![document], q, g) == match resolve::text_version(document, q, g) {
            Some(found) => Some(found),
            None => if resolve::text_declares(document, q) {
                g(resolve::AIDL_OMITTED_VERSION)
            } else {
                None
            },
        },
{
    let documents = seq![document];
    let stated = stated_versions(documents, q, g);
    assert(documents[0] == document);
    assert(stated[0] == resolve::text_version(document, q, g));
    assert(resolve::declared(documents, q) == resolve::text_declares(document, q));
    if stated[0] is Some {
        lemma_first_explicit_at(stated, 0);
    } else {
        lemma_no_explicit(stated);
    }
}

/// One manifest whose versions read without an error resolves by itself to the
/// version that was read, or, where none was, as an instance without one.
pub proof fn law_valid_text_resolves_as_it_reads(
    hals: Seq<Hal>,
    q: Query,
    g: spec_fn(i32) -> Option<i32>,
)
    ensures
        version::first_usable(manifest::candidate_versions(hals, q), g) matches Ok(read)
            ==> resolve::resolution(seq![Some(hals)], q, g) == match read {
            Some(found) => Some(found),
            None => if manifest::declares(hals, q) {
                g(resolve::AIDL_OMITTED_VERSION)
            } else {
                None
            },
        },
{
    law_single_text(Some(hals), q, g);
    law_search_agrees_with_reading(manifest::candidate_versions(hals, q), g);
}

// ---------------------------------------------------------------------------
// Resolution with a normalization that need not answer alike each time
// ---------------------------------------------------------------------------

/// Whether the normalization never supports what `version` denotes, or `version`
/// is no number.
pub open spec fn never_usable(
    version: Seq<char>,
    may_reply: spec_fn(i32, Option<i32>) -> bool,
) -> bool {
    text::denoted_i32(text::trimmed(version)) matches Some(number) ==> forall|reply: Option<i32>|
        #[trigger] may_reply(number, reply) ==> reply is None
}

/// Whether none of `versions` is ever usable.
pub open spec fn none_ever_usable(
    versions: Seq<Seq<char>>,
    may_reply: spec_fn(i32, Option<i32>) -> bool,
) -> bool {
    forall|k: int| 0 <= k < versions.len() ==> never_usable(#[trigger] versions[k], may_reply)
}

/// Nothing is found where nothing is ever usable.
proof fn lemma_nothing_to_find(
    versions: Seq<Seq<char>>,
    may_reply: spec_fn(i32, Option<i32>) -> bool,
    r: Option<i32>,
)
    requires
        none_ever_usable(versions, may_reply),
        version::may_find(versions, may_reply, r),
    ensures
        r is None,
    decreases versions.len(),
{
    if versions.len() > 0 {
        let rest = versions.drop_first();
        assert(never_usable(versions[0], may_reply));
        assert forall|k: int| 0 <= k < rest.len() implies never_usable(
            #[trigger] rest[k],
            may_reply,
        ) by {
            assert(rest[k] == versions[k + 1]);
        }
        if version::may_find(rest, may_reply, r) {
            lemma_nothing_to_find(rest, may_reply, r);
        }
    }
}

/// A number that is always supported, behind versions that never are, is found.
proof fn lemma_find_at(
    versions: Seq<Seq<char>>,
    may_reply: spec_fn(i32, Option<i32>) -> bool,
    k: int,
    number: i32,
    r: Option<i32>,
)
    requires
        0 <= k < versions.len(),
        text::denoted_i32(text::trimmed(versions[k])) == Some(number),
        !may_reply(number, None),
        forall|m: int| 0 <= m < k ==> never_usable(#[trigger] versions[m], may_reply),
        version::may_find(versions, may_reply, r),
    ensures
        r is Some,
        may_reply(number, r),
    decreases versions.len(),
{
    let rest = versions.drop_first();
    if k > 0 {
        assert(never_usable(versions[0], may_reply));
        assert(rest[k - 1] == versions[k]);
        assert forall|m: int| 0 <= m < k - 1 implies never_usable(
            #[trigger] rest[m],
            may_reply,
        ) by {
            assert(rest[m] == versions[m + 1]);
        }
        assert(version::may_find(rest, may_reply, r));
        lemma_find_at(rest, may_reply, k - 1, number, r);
    }
}

/// The versions that the texts may have stated for `r` to come out.
spec fn witness(
    documents: Seq<Option<Seq<Hal>>>,
    q: Query,
    may_reply: spec_fn(i32, Option<i32>) -> bool,
    r: Option<i32>,
) -> Seq<Option<i32>> {
    choose|stated: Seq<Option<i32>>| #[trigger]
        resolve::texts_may_state(documents, q, may_reply, stated) && resolve::settles(
            documents,
            q,
            may_reply,
            stated,
            r,
        )
}

/// The first number over all texts that the normalization always supports wins,
/// if it never supports one before it: what comes out is a reply to that number.
pub proof fn law_any_explicit_version_wins(
    documents: Seq<Option<Seq<Hal>>>,
    q: Query,
    may_reply: spec_fn(i32, Option<i32>) -> bool,
    i: int,
    k: int,
    number: i32,
    r: Option<i32>,
)
    requires
        0 <= i < documents.len(),
        0 <= k < text_candidates(documents[i], q).len(),
        text::denoted_i32(text::trimmed(text_candidates(documents[i], q)[k])) == Some(number),
        !may_reply(number, None),
        forall|m: int|
            0 <= m < k ==> never_usable(#[trigger] text_candidates(documents[i], q)[m], may_reply),
        forall|j: int|
            0 <= j < i ==> none_ever_usable(
                text_candidates(#[trigger] documents[j], q),
                may_reply,
            ),
        resolve::may_resolve(documents, q, may_reply, r),
    ensures
        r is Some,
        may_reply(number, r),
{
    let stated = witness(documents, q, may_reply, r);
    assert(resolve::text_may_state(documents[i], q, may_reply, stated[i]));
    lemma_find_at(text_candidates(documents[i], q), may_reply, k, number, stated[i]);
    assert forall|j: int| 0 <= j < i implies #[trigger] stated[j] is None by {
        assert(none_ever_usable(text_candidates(documents[j], q), may_reply));
        if documents[j] is Some {
            lemma_nothing_to_find(text_candidates(documents[j], q), may_reply, stated[j]);
        }
    }
    lemma_first_explicit_at(stated, i);
}

/// A declared instance whose versions are never usable has a reply to the
/// omitted version, with whatever normalization.
pub proof fn law_any_omitted_version(
    documents: Seq<Option<Seq<Hal>>>,
    q: Query,
    may_reply: spec_fn(i32, Option<i32>) -> bool,
    r: Option<i32>,
)
    requires
        resolve::declared(documents, q),
        forall|i: int|
            0 <= i < documents.len() ==> none_ever_usable(
                text_candidates(#[trigger] documents[i], q),
                may_reply,
            ),
        resolve::may_resolve(documents, q, may_reply, r),
    ensures
        may_reply(resolve::AIDL_OMITTED_VERSION, r),
{
    let stated = witness(documents, q, may_reply, r);
    assert forall|i: int| 0 <= i < stated.len() implies #[trigger] stated[i] is None by {
        assert(none_ever_usable(text_candidates(documents[i], q), may_reply));
        if documents[i] is Some {
            lemma_nothing_to_find(text_candidates(documents[i], q), may_reply, stated[i]);
        }
    }
    lemma_no_explicit(stated);
}

/// An instance that no text declares has no version, with whatever
/// normalization.
pub proof fn law_any_undeclared_instance_is_absent(
    documents: Seq<Option<Seq<Hal>>>,
    q: Query,
    may_reply: spec_fn(i32, Option<i32>) -> bool,
    r: Option<i32>,
)
    requires
        !resolve::declared(documents, q),
        resolve::may_resolve(documents, q, may_reply, r),
    ensures
        r is None,
{
    let stated = witness(documents, q, may_reply, r);
    assert forall|i: int| 0 <= i < stated.len() implies #[trigger] stated[i] is None by {
        assert(!resolve::text_declares(documents[i], q));
        if let Some(hals) = documents[i] {
            law_any_version_implies_declaration(hals, q, may_reply);
        }
    }
    lemma_no_explicit(stated);
}

/// A text more or less that does not declare the instance leaves the declaration
/// as it is.
proof fn lemma_declared_insert(
    documents: Seq<Option<Seq<Hal>>>,
    i: int,
    unrelated: Option<Seq<Hal>>,
    q: Query,
)
    requires
        0 <= i <= documents.len(),
        !resolve::text_declares(unrelated, q),
    ensures
        resolve::declared(documents.insert(i, unrelated), q) == resolve::declared(documents, q),
{
    let more = documents.insert(i, unrelated);
    if resolve::declared(documents, q) {
        let k = choose|k: int|
            0 <= k < documents.len() && resolve::text_declares(#[trigger] documents[k], q);
        assert(more[if k < i {
            k
        } else {
            k + 1
        }] == documents[k]);
    }
    if resolve::declared(more, q) {
        let k = choose|k: int|
            0 <= k < more.len() && resolve::text_declares(#[trigger] more[k], q);
        assert(more[k] == documents[if k < i {
            k
        } else {
            k - 1
        }]);
    }
}

/// A text that is no manifest, or that does not declare the instance, can stand
/// anywhere among the texts, or be left out, with whatever normalization.
pub proof fn law_any_unrelated_text_is_ignored(
    documents: Seq<Option<Seq<Hal>>>,
    i: int,
    unrelated: Option<Seq<Hal>>,
    q: Query,
    may_reply: spec_fn(i32, Option<i32>) -> bool,
    r: Option<i32>,
)
    requires
        0 <= i <= documents.len(),
        !resolve::text_declares(unrelated, q),
    ensures
        resolve::may_resolve(documents.insert(i, unrelated), q, may_reply, r)
            <==> resolve::may_resolve(documents, q, may_reply, r),
{
    let more = documents.insert(i, unrelated);
    lemma_declared_insert(documents, i, unrelated, q);
    if let Some(hals) = unrelated {
        law_any_version_implies_declaration(hals, q, may_reply);
    }
    if resolve::may_resolve(documents, q, may_reply, r) {
        let stated = witness(documents, q, may_reply, r);
        let longer = stated.insert(i, None);
        lemma_first_explicit_insert(stated, i);
        assert forall|k: int| 0 <= k < more.len() implies resolve::text_may_state(
            more[k],
            q,
            may_reply,
            #[trigger] longer[k],
        ) by {
            if k < i {
                assert(longer[k] == stated[k]);
            } else if k > i {
                assert(longer[k] == stated[k - 1]);
            }
        }
        assert(resolve::texts_may_state(more, q, may_reply, longer));
    }
    if resolve::may_resolve(more, q, may_reply, r) {
        let longer = witness(more, q, may_reply, r);
        let stated = longer.remove(i);
        assert(resolve::text_may_state(more[i], q, may_reply, longer[i]));
        assert(longer == stated.insert(i, None));
        lemma_first_explicit_insert(stated, i);
        assert forall|k: int| 0 <= k < documents.len() implies resolve::text_may_state(
            documents[k],
            q,
            may_reply,
            #[trigger] stated[k],
        ) by {
            if k < i {
                assert(longer[k] == stated[k]);
            } else {
                assert(longer[k + 1] == stated[k]);
            }
        }
        assert(resolve::texts_may_state(documents, q, may_reply, stated));
    }
}

// ---------------------------------------------------------------------------
// Paths
// ---------------------------------------------------------------------------

/// Filtering and mapping keeps what passes, and nothing else.
proof fn lemma_fragment_paths(directory: &str, names: Seq<Seq<u8>>, path: Seq<u8>)
    ensures
        paths::fragment_paths(directory, names).contains(path) <==> exists|k: int|
            0 <= k < names.len() && paths::names_xml(#[trigger] names[k]) && path
                == paths::entry_path(directory, names[k]),
    decreases names.len(),
{
    reveal(Seq::filter);
    let all = paths::fragment_paths(directory, names);
    if names.len() > 0 {
        let fewer = names.drop_last();
        let rest = paths::fragment_paths(directory, fewer);
        let last = names.last();
        lemma_fragment_paths(directory, fewer, path);
        assert(all == if paths::names_xml(last) {
            rest.push(paths::entry_path(directory, last))
        } else {
            rest
        });
        if all.contains(path) {
            let m = choose|m: int| 0 <= m < all.len() && all[m] == path;
            if m < rest.len() {
                assert(rest[m] == path);
                let k = choose|k: int|
                    0 <= k < fewer.len() && paths::names_xml(#[trigger] fewer[k]) && path
                        == paths::entry_path(directory, fewer[k]);
                assert(names[k] == fewer[k]);
            } else {
                assert(names[names.len() - 1] == last);
            }
        }
        if exists|k: int|
            0 <= k < names.len() && paths::names_xml(#[trigger] names[k]) && path
                == paths::entry_path(directory, names[k]) {
            let k = choose|k: int|
                0 <= k < names.len() && paths::names_xml(#[trigger] names[k]) && path
                    == paths::entry_path(directory, names[k]);
            if k < fewer.len() {
                assert(fewer[k] == names[k]);
                let m = choose|m: int| 0 <= m < rest.len() && rest[m] == path;
                assert(all[m] == path);
            } else {
                assert(all[all.len() - 1] == path);
            }
        }
    }
}

/// Whether `path` is that of an entry with the extension `xml` of the directory
/// `d`, which could be read.
pub open spec fn is_fragment_of(
    listings: Seq<Option<Seq<Seq<u8>>>>,
    d: int,
    path: Seq<u8>,
) -> bool {
    listings[d] matches Some(names) && exists|k: int|
        0 <= k < names.len() && paths::names_xml(#[trigger] names[k]) && path == paths::entry_path(
            paths::VINTF_MANIFEST_DIRS@[d],
            names[k],
        )
}

/// The scanned paths are those of the `xml` entries of the directories that
/// could be read, and no others.
pub proof fn law_scanned_paths(listings: Seq<Option<Seq<Seq<u8>>>>, path: Seq<u8>)
    requires
        listings.len() <= paths::VINTF_MANIFEST_DIRS@.len(),
    ensures
        paths::scanned_paths(listings).contains(path) <==> exists|d: int|
            0 <= d < listings.len() && #[trigger] is_fragment_of(listings, d, path),
    decreases listings.len(),
{
    if listings.len() > 0 {
        let n = listings.len() - 1;
        let fewer = listings.drop_last();
        let rest = paths::scanned_paths(fewer);
        let own = match listings.last() {
            None => Seq::empty(),
            Some(names) => paths::fragment_paths(paths::VINTF_MANIFEST_DIRS@[n], names),
        };
        let all = paths::scanned_paths(listings);
        assert(all == rest + own);
        law_scanned_paths(fewer, path);
        if let Some(names) = listings.last() {
            lemma_fragment_paths(paths::VINTF_MANIFEST_DIRS@[n], names, path);
        }
        assert(own.contains(path) == is_fragment_of(listings, n, path));
        assert forall|d: int| 0 <= d < n implies #[trigger] is_fragment_of(listings, d, path)
            == is_fragment_of(fewer, d, path) by {
            assert(fewer[d] == listings[d]);
        }
        if all.contains(path) {
            let m = choose|m: int| 0 <= m < all.len() && all[m] == path;
            if m < rest.len() {
                assert(rest[m] == path);
                let d = choose|d: int|
                    0 <= d < fewer.len() && #[trigger] is_fragment_of(fewer, d, path);
                assert(is_fragment_of(listings, d, path));
            } else {
                assert(own[m - rest.len()] == path);
                assert(is_fragment_of(listings, n, path));
            }
        }
        if exists|d: int| 0 <= d < listings.len() && #[trigger] is_fragment_of(listings, d, path) {
            let d = choose|d: int|
                0 <= d < listings.len() && #[trigger] is_fragment_of(listings, d, path);
            if d < n {
                assert(is_fragment_of(fewer, d, path));
                let m = choose|m: int| 0 <= m < rest.len() && rest[m] == path;
                assert(all[m] == path);
            } else {
                let m = choose|m: int| 0 <= m < own.len() && own[m] == path;
                assert(all[rest.len() + m] == path);
            }
        }
    }
}

/// A device on which no directory can be read still has the manifests that stand
/// by themselves.
pub proof fn law_unreadable_directories_add_nothing(listings: Seq<Option<Seq<Seq<u8>>>>)
    requires
        forall|d: int| 0 <= d < listings.len() ==> #[trigger] listings[d] is None,
    ensures
        paths::scanned_paths(listings) + paths::fixed_paths() == paths::fixed_paths(),
    decreases listings.len(),
{
    if listings.len() > 0 {
        let fewer = listings.drop_last();
        assert(listings[listings.len() - 1] is None);
        assert forall|d: int| 0 <= d < fewer.len() implies #[trigger] fewer[d] is None by {
            assert(fewer[d] == listings[d]);
        }
        law_unreadable_directories_add_nothing(fewer);
        assert(paths::scanned_paths(fewer).len() == 0) by {
            assert((paths::scanned_paths(fewer) + paths::fixed_paths()).len()
                == paths::fixed_paths().len());
        }
    }
    assert(paths::scanned_paths(listings).len() == 0);
}

// ---------------------------------------------------------------------------
// Elements, wherever they stand
// ---------------------------------------------------------------------------

/// A HAL references an instance exactly where it is the AIDL HAL of that name and
/// one of its `<fqname>` texts reads `interface/instance`, at any place, or one of
/// its `<interface>` elements, at any place, has that name and lists the instance.
pub proof fn law_any_listing_references(hal: Hal, q: Query)
    ensures
        hal.references_aidl_instance(q) <==> {
            &&& hal.format matches Some(format) && text::trimmed(format) == "aidl"@
            &&& hal.name matches Some(name) && text::trimmed(name) == q.hal_name
            &&& {
                ||| exists|i: int|
                    0 <= i < hal.fqnames.len() && text::trimmed(#[trigger] hal.fqnames[i])
                        == q.interface + seq!['/'] + q.instance
                ||| exists|i: int, j: int|
                    0 <= i < hal.interfaces.len() && 0 <= j < hal.interfaces[i].instances.len()
                        && text::trimmed(#[trigger] hal.interfaces[i].instances[j]) == q.instance
                        && (hal.interfaces[i].name matches Some(name) && text::trimmed(name)
                        == q.interface)
            }
        },
{
    reveal_strlit("/");
    assert("/"@ == seq!['/']);
    let full = q.interface + seq!['/'] + q.instance;
    assert(manifest::fqname(q.interface, q.instance) == full);
    if hal.references_instance(q.interface, q.instance) && !manifest::lists(hal.fqnames, full) {
        let i = choose|i: int|
            0 <= i < hal.interfaces.len() && (#[trigger] hal.interfaces[i]).references(
                q.interface,
                q.instance,
            );
        let instances = hal.interfaces[i].instances;
        let j = choose|j: int|
            0 <= j < instances.len() && text::trimmed(#[trigger] instances[j]) == q.instance;
        assert(text::trimmed(hal.interfaces[i].instances[j]) == q.instance);
    }
    if exists|i: int, j: int|
        0 <= i < hal.interfaces.len() && 0 <= j < hal.interfaces[i].instances.len()
            && text::trimmed(#[trigger] hal.interfaces[i].instances[j]) == q.instance && (
        hal.interfaces[i].name matches Some(name) && text::trimmed(name) == q.interface) {
        let (i, j) = choose|i: int, j: int|
            0 <= i < hal.interfaces.len() && 0 <= j < hal.interfaces[i].instances.len()
                && text::trimmed(#[trigger] hal.interfaces[i].instances[j]) == q.instance && (
            hal.interfaces[i].name matches Some(name) && text::trimmed(name) == q.interface);
        assert(manifest::lists(hal.interfaces[i].instances, q.instance));
        assert(hal.interfaces[i].references(q.interface, q.instance));
    }
}

/// A HAL in front of a manifest puts its versions in front of those that are
/// read, all of them, if it references the instance, whatever else it lists.
pub proof fn law_referencing_hal_puts_its_versions_first(h: Hal, rest: Seq<Hal>, q: Query)
    ensures
        h.references_aidl_instance(q) ==> manifest::candidate_versions(seq![h] + rest, q)
            == h.versions + manifest::candidate_versions(rest, q),
        !h.references_aidl_instance(q) ==> manifest::candidate_versions(seq![h] + rest, q)
            == manifest::candidate_versions(rest, q),
{
    let all = seq![h] + rest;
    assert(all.first() == h);
    assert(all.drop_first() == rest);
}

/// The versions read of a manifest with one HAL are that HAL's, if it references
/// the instance.
pub proof fn law_single_hal(h: Hal, q: Query)
    ensures
        h.references_aidl_instance(q) ==> manifest::candidate_versions(seq![h], q) == h.versions,
        !h.references_aidl_instance(q) ==> manifest::candidate_versions(seq![h], q).len() == 0,
{
    law_referencing_hal_puts_its_versions_first(h, Seq::empty(), q);
    assert(seq![h] + Seq::<Hal>::empty() == seq![h]);
}

/// The versions read of two manifests in a row are those of the first, then those
/// of the second.
pub proof fn law_candidates_in_document_order(a: Seq<Hal>, b: Seq<Hal>, q: Query)
    ensures
        manifest::candidate_versions(a + b, q) == manifest::candidate_versions(a, q)
            + manifest::candidate_versions(b, q),
    decreases a.len(),
{
    if a.len() == 0 {
        assert(a + b == b);
    } else {
        assert((a + b).first() == a.first());
        assert((a + b).drop_first() == a.drop_first() + b);
        law_candidates_in_document_order(a.drop_first(), b, q);
    }
}

/// A manifest answers that it declares an instance exactly where one of its HALs,
/// at any place, references it.
pub proof fn law_instance_answer<E>(
    m: ManifestXml,
    q: Query,
    r: Result<bool, VintfError<E>>,
)
    ensures
        version::answers_instance(Ok(m), q, r) <==> (r matches Ok(answer) && (answer <==> exists|
            i: int,
        | 0 <= i < m@.len() && (#[trigger] m@[i]).references_aidl_instance(q))),
{
}

/// A manifest that is split in two declares an instance exactly where one of its
/// parts does.
pub proof fn law_declaring_part(a: Seq<Hal>, b: Seq<Hal>, q: Query)
    ensures
        manifest::declares(a + b, q) <==> manifest::declares(a, q) || manifest::declares(b, q),
{
    let all = a + b;
    if manifest::declares(all, q) {
        let i = choose|i: int|
            0 <= i < all.len() && (#[trigger] all[i]).references_aidl_instance(q);
        if i < a.len() {
            assert(a[i].references_aidl_instance(q));
        } else {
            assert(b[i - a.len()].references_aidl_instance(q));
        }
    }
    if manifest::declares(a, q) {
        let i = choose|i: int| 0 <= i < a.len() && (#[trigger] a[i]).references_aidl_instance(q);
        assert(all[i].references_aidl_instance(q));
    }
    if manifest::declares(b, q) {
        let i = choose|i: int| 0 <= i < b.len() && (#[trigger] b[i]).references_aidl_instance(q);
        assert(all[a.len() + i].references_aidl_instance(q));
    }
}

/// There are as many documents as texts, and each is what the text at its own
/// place was deserialized to.
pub proof fn law_documents_in_text_order<D: Fn(&str) -> Result<ManifestXml, E>, E>(
    xmls: Seq<&str>,
    deserialize: D,
    documents: Seq<Option<ManifestXml>>,
    i: int,
)
    requires
        resolve::deserialized(xmls, deserialize, documents),
        0 <= i < xmls.len(),
    ensures
        documents.len() == xmls.len(),
        documents[i] matches Some(m) ==> deserialize.ensures(
            (xmls[i],),
            Ok::<ManifestXml, E>(m),
        ),
        documents[i] is None ==> exists|e: E|
            deserialize.ensures((xmls[i],), Err::<ManifestXml, E>(e)),
{
    let document = documents[i];
}

} // verus!
