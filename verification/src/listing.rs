//! Which paths are listed for which directory entries, by the entries' places.

use vstd::prelude::*;
use vstd::utf8;

use crate::paths;

verus! {

/// An entry name has the extension `xml` exactly where it is something, of
/// whatever length, with `.xml` behind it.
pub proof fn law_names_xml(name: Seq<u8>)
    ensures
        paths::names_xml(name) <==> exists|stem: Seq<u8>|
            stem.len() > 0 && name == #[trigger] stem.push(0x2eu8).push(0x78u8).push(
                0x6du8,
            ).push(0x6cu8),
{
    let extension = seq!['.' as u8, 'x' as u8, 'm' as u8, 'l' as u8];
    if paths::names_xml(name) {
        let stem = name.take(name.len() - 4);
        assert(name == stem + name.skip(name.len() - 4));
        assert(name == stem.push(0x2eu8).push(0x78u8).push(0x6du8).push(0x6cu8));
    }
    if exists|stem: Seq<u8>|
        stem.len() > 0 && name == #[trigger] stem.push(0x2eu8).push(0x78u8).push(0x6du8).push(
            0x6cu8,
        ) {
        assert(name.skip(name.len() - 4) == extension);
    }
}

/// A stem, of whatever length, makes a name with the extension `xml` exactly where
/// it is not empty.
pub proof fn law_stem_makes_a_name(stem: Seq<u8>)
    ensures
        paths::names_xml(stem.push(0x2eu8).push(0x78u8).push(0x6du8).push(0x6cu8)) <==> stem.len()
            > 0,
{
    law_names_xml(stem.push(0x2eu8).push(0x78u8).push(0x6du8).push(0x6cu8));
}

/// An entry name is tested to have the extension `xml` exactly where it is
/// something, of whatever length, with `.xml` behind it.
pub proof fn law_has_xml_extension(name: &Vec<u8>, r: bool)
    requires
        call_ensures(paths::has_xml_extension, (name,), r),
    ensures
        r <==> exists|stem: Seq<u8>|
            stem.len() > 0 && name@ == #[trigger] stem.push(0x2eu8).push(0x78u8).push(
                0x6du8,
            ).push(0x6cu8),
{
    law_names_xml(name@);
}

/// The places of the entries of a directory that are fragments.
proof fn lemma_kept(directory: &str, names: Seq<Seq<u8>>) -> (kept: Seq<int>)
    ensures
        kept.len() == paths::fragment_paths(directory, names).len(),
        forall|p: int|
            0 <= p < kept.len() ==> 0 <= #[trigger] kept[p] < names.len() && paths::names_xml(
                names[kept[p]],
            ) && paths::fragment_paths(directory, names)[p] == paths::entry_path(
                directory,
                names[kept[p]],
            ),
        forall|p: int, s: int| 0 <= p < s < kept.len() ==> #[trigger] kept[p] < #[trigger] kept[s],
        forall|k: int|
            0 <= k < names.len() && paths::names_xml(#[trigger] names[k]) ==> kept.contains(k),
    decreases names.len(),
{
    let is_fragment = |name: Seq<u8>| paths::names_xml(name);
    let path_of = |name: Seq<u8>| paths::entry_path(directory, name);
    reveal(Seq::filter);
    if names.len() == 0 {
        Seq::empty()
    } else {
        let before = names.drop_last();
        let kept = lemma_kept(directory, before);
        let so_far = paths::fragment_paths(directory, before);
        let now = paths::fragment_paths(directory, names);
        if paths::names_xml(names.last()) {
            let more = kept.push(names.len() - 1);
            assert(names.filter(is_fragment) == before.filter(is_fragment).push(names.last()));
            assert(now == so_far.push(paths::entry_path(directory, names.last())));
            assert forall|k: int|
                0 <= k < names.len() && paths::names_xml(#[trigger] names[k]) implies more.contains(
                k,
            ) by {
                if k < before.len() {
                    assert(before[k] == names[k]);
                    let p = choose|p: int| 0 <= p < kept.len() && kept[p] == k;
                    assert(more[p] == k);
                } else {
                    assert(more[kept.len() as int] == k);
                }
            }
            more
        } else {
            assert(names.filter(is_fragment) == before.filter(is_fragment));
            assert(now == so_far);
            assert forall|k: int|
                0 <= k < names.len() && paths::names_xml(#[trigger] names[k]) implies kept.contains(
                k,
            ) by {
                assert(before[k] == names[k]);
            }
            kept
        }
    }
}

/// Where the scanned paths come from: the directory, and the place in its listing.
proof fn lemma_scanned(listings: Seq<Option<Seq<Seq<u8>>>>) -> (origin: Seq<(int, int)>)
    ensures
        origin.len() == paths::scanned_paths(listings).len(),
        forall|p: int|
            0 <= p < origin.len() ==> ({
                let (d, k) = #[trigger] origin[p];
                0 <= d < listings.len() && (listings[d] matches Some(names) && 0 <= k < names.len()
                    && paths::names_xml(names[k]) && paths::scanned_paths(listings)[p]
                    == paths::entry_path(paths::VINTF_MANIFEST_DIRS@[d], names[k]))
            }),
        forall|p: int, s: int|
            0 <= p < s < origin.len() ==> (#[trigger] origin[p]).0 < (#[trigger] origin[s]).0 || (
            origin[p].0 == origin[s].0 && origin[p].1 < origin[s].1),
        forall|d: int, k: int|
            0 <= d < listings.len() && listings[d] is Some && 0 <= k < listings[d]->0.len()
                && paths::names_xml(#[trigger] listings[d]->0[k]) ==> origin.contains((d, k)),
    decreases listings.len(),
{
    if listings.len() == 0 {
        Seq::empty()
    } else {
        let before = listings.drop_last();
        let last = listings.len() - 1;
        let origin = lemma_scanned(before);
        match listings.last() {
            None => {
                assert(paths::scanned_paths(listings) == paths::scanned_paths(before));
                assert forall|d: int, k: int|
                    0 <= d < listings.len() && listings[d] is Some && 0 <= k
                        < listings[d]->0.len() && paths::names_xml(
                        #[trigger] listings[d]->0[k],
                    ) implies origin.contains((d, k)) by {
                    assert(before[d] == listings[d]);
                    assert(paths::names_xml(before[d]->0[k]));
                }
                origin
            },
            Some(names) => {
                let directory = paths::VINTF_MANIFEST_DIRS@[last];
                let kept = lemma_kept(directory, names);
                let all = origin + Seq::new(kept.len(), |p: int| (last, kept[p]));
                assert(paths::scanned_paths(listings) == paths::scanned_paths(before)
                    + paths::fragment_paths(directory, names));
                assert forall|d: int, k: int|
                    0 <= d < listings.len() && listings[d] is Some && 0 <= k
                        < listings[d]->0.len() && paths::names_xml(
                        #[trigger] listings[d]->0[k],
                    ) implies all.contains((d, k)) by {
                    if d < last {
                        assert(before[d] == listings[d]);
                        assert(paths::names_xml(before[d]->0[k]));
                        let p = choose|p: int| 0 <= p < origin.len() && origin[p] == (d, k);
                        assert(all[p] == (d, k));
                    } else {
                        let p = choose|p: int| 0 <= p < kept.len() && kept[p] == k;
                        assert(all[origin.len() + p] == (d, k));
                    }
                }
                all
            },
        }
    }
}

/// The directories of fragments, one by one.
pub open spec fn directory(d: int) -> Seq<char> {
    if d == 0 {
        "/system/etc/vintf/manifest"@
    } else if d == 1 {
        "/system_ext/etc/vintf/manifest"@
    } else if d == 2 {
        "/product/etc/vintf/manifest"@
    } else if d == 3 {
        "/vendor/etc/vintf/manifest"@
    } else {
        "/odm/etc/vintf/manifest"@
    }
}

/// Whether directory `d` could be read, and its entry `k` is named something with
/// `.xml` behind it.
pub open spec fn is_fragment(listings: Seq<Option<Vec<Vec<u8>>>>, d: int, k: int) -> bool {
    0 <= d < 5 && (listings[d] matches Some(names) && 0 <= k < names@.len() && exists|
        stem: Seq<u8>,
    | stem.len() > 0 && names@[k]@ == #[trigger] stem.push(0x2eu8).push(0x78u8).push(
                0x6du8,
            ).push(0x6cu8))
}

/// The paths listed are those of all fragments, each once, directory by directory
/// and in the order of each listing, and behind them the manifests that stand by
/// themselves.
pub proof fn law_manifest_paths(listings: &[Option<Vec<Vec<u8>>>; 5], r: Vec<Vec<u8>>)
    requires
        call_ensures(paths::manifest_paths, (listings,), r),
    ensures
        exists|origin: Seq<(int, int)>|
            #![trigger origin.len()]
            {
                &&& r@.len() == origin.len() + 5
                &&& forall|p: int|
                    #![trigger origin[p]]
                    #![trigger r@[p]]
                    0 <= p < origin.len() ==> is_fragment(listings@, origin[p].0, origin[p].1)
                        && r@[p]@ == utf8::encode_utf8(directory(origin[p].0)) + seq![0x2fu8]
                        + listings@[origin[p].0]->0@[origin[p].1]@
                &&& forall|p: int, s: int|
                    0 <= p < s < origin.len() ==> (#[trigger] origin[p]).0 < (
                    #[trigger] origin[s]).0 || (origin[p].0 == origin[s].0 && origin[p].1
                        < origin[s].1)
                &&& forall|d: int, k: int| #[trigger]
                    is_fragment(listings@, d, k) ==> origin.contains((d, k))
            },
        r@[r@.len() - 5]@ == utf8::encode_utf8("/system/etc/vintf/manifest.xml"@),
        r@[r@.len() - 4]@ == utf8::encode_utf8("/system_ext/etc/vintf/manifest.xml"@),
        r@[r@.len() - 3]@ == utf8::encode_utf8("/product/etc/vintf/manifest.xml"@),
        r@[r@.len() - 2]@ == utf8::encode_utf8("/vendor/etc/vintf/manifest.xml"@),
        r@[r@.len() - 1]@ == utf8::encode_utf8("/odm/etc/vintf/manifest.xml"@),
{
    let all = listings.deep_view();
    let origin = lemma_scanned(all);
    let scanned = paths::scanned_paths(all);
    let fixed = paths::fixed_paths();
    assert(r.deep_view() == scanned + fixed);
    assert(r@.len() == origin.len() + 5);
    assert forall|p: int| 0 <= p < r@.len() implies (#[trigger] r@[p])@ == (scanned + fixed)[p] by {
        assert(r.deep_view()[p] == r@[p].deep_view());
        assert(r@[p].deep_view() == r@[p]@);
    }
    assert forall|d: int| 0 <= d < 5 implies all[d] == #[trigger] listings@[d].deep_view() by {}
    assert forall|d: int| 0 <= d < 5 implies #[trigger] paths::VINTF_MANIFEST_DIRS@[d]@
        == directory(d) by {}
    assert forall|d: int, k: int|
        0 <= d < 5 && listings@[d] is Some && 0 <= k < listings@[d]->0@.len() implies all[d] is Some
        && all[d]->0.len() == listings@[d]->0@.len() && all[d]->0[k]
        == #[trigger] listings@[d]->0@[k]@ by {
        assert(all[d] == listings@[d].deep_view());
        assert(all[d]->0 == listings@[d]->0.deep_view());
        assert(all[d]->0[k] == listings@[d]->0@[k].deep_view());
        assert(listings@[d]->0@[k].deep_view() == listings@[d]->0@[k]@);
    }
    assert forall|p: int|
        #![trigger origin[p]]
        #![trigger r@[p]]
        0 <= p < origin.len() implies is_fragment(listings@, origin[p].0, origin[p].1) && r@[p]@
        == utf8::encode_utf8(directory(origin[p].0)) + seq![0x2fu8]
        + listings@[origin[p].0]->0@[origin[p].1]@ by {
        let (d, k) = origin[p];
        assert(all[d] == listings@[d].deep_view());
        assert(all[d]->0[k] == listings@[d]->0@[k]@);
        law_names_xml(listings@[d]->0@[k]@);
        assert(seq!['/' as u8] == seq![0x2fu8]);
        assert(r@[p]@ == scanned[p]);
        assert(paths::VINTF_MANIFEST_DIRS@[d]@ == directory(d));
    }
    assert forall|d: int, k: int| #[trigger] is_fragment(listings@, d, k) implies origin.contains(
        (d, k),
    ) by {
        law_names_xml(listings@[d]->0@[k]@);
        assert(all[d] == listings@[d].deep_view());
        assert(all[d]->0[k] == listings@[d]->0@[k]@);
    }
    assert(r@[r@.len() - 5]@ == fixed[0]);
    assert(r@[r@.len() - 4]@ == fixed[1]);
    assert(r@[r@.len() - 3]@ == fixed[2]);
    assert(r@[r@.len() - 2]@ == fixed[3]);
    assert(r@[r@.len() - 1]@ == fixed[4]);
}

} // verus!
