//! Where VINTF manifests lie on a device.

use vstd::prelude::*;
use vstd::string::*;
use vstd::utf8;

verus! {

/// The directories that hold manifest fragments, in the order in which they are
/// scanned.
pub const VINTF_MANIFEST_DIRS: [&'static str; 5] = [
    "/system/etc/vintf/manifest",
    "/system_ext/etc/vintf/manifest",
    "/product/etc/vintf/manifest",
    "/vendor/etc/vintf/manifest",
    "/odm/etc/vintf/manifest",
];

/// The manifests that stand by themselves, in the order in which they are read.
pub const VINTF_MANIFEST_FILES: [&'static str; 5] = [
    "/system/etc/vintf/manifest.xml",
    "/system_ext/etc/vintf/manifest.xml",
    "/product/etc/vintf/manifest.xml",
    "/vendor/etc/vintf/manifest.xml",
    "/odm/etc/vintf/manifest.xml",
];

/// Whether the name of a directory entry has the extension `xml`: a name that is
/// nothing but `.xml` is a hidden file without one.
pub open spec fn names_xml(name: Seq<u8>) -> bool {
    &&& name.len() > 4
    &&& name.skip(name.len() - 4) == seq!['.' as u8, 'x' as u8, 'm' as u8, 'l' as u8]
}

/// The path of the entry `name` of `directory`.
pub open spec fn entry_path(directory: &str, name: Seq<u8>) -> Seq<u8> {
    utf8::encode_utf8(directory@) + seq!['/' as u8] + name
}

/// The paths of the manifest fragments among the entries of `directory`, in the
/// order of the entries.
pub open spec fn fragment_paths(directory: &str, names: Seq<Seq<u8>>) -> Seq<Seq<u8>> {
    names.filter(|name: Seq<u8>| names_xml(name)).map_values(
        |name: Seq<u8>| entry_path(directory, name),
    )
}

/// The paths of the fragments in the first directories, where `listings` holds
/// the entries of each of them, or `None` for one that could not be read.
pub open spec fn scanned_paths(listings: Seq<Option<Seq<Seq<u8>>>>) -> Seq<Seq<u8>>
    decreases listings.len(),
{
    if listings.len() == 0 {
        Seq::empty()
    } else {
        scanned_paths(listings.drop_last()) + match listings.last() {
            None => Seq::empty(),
            Some(names) => fragment_paths(VINTF_MANIFEST_DIRS@[listings.len() - 1], names),
        }
    }
}

/// The paths of the manifests that stand by themselves.
pub open spec fn fixed_paths() -> Seq<Seq<u8>> {
    VINTF_MANIFEST_FILES@.map_values(|file: &str| utf8::encode_utf8(file@))
}

/// Tests whether the name of a directory entry has the extension `xml`.
pub fn has_xml_extension(name: &Vec<u8>) -> (r: bool)
    ensures
        r == names_xml(name@),
{
    let n = name.len();
    if n <= 4 {
        return false;
    }
    let ghost tail = name@.skip(n - 4);
    let r = name[n - 4] == '.' as u8 && name[n - 3] == 'x' as u8 && name[n - 2] == 'm' as u8
        && name[n - 1] == 'l' as u8;
    assert(tail[0] == name@[n - 4] && tail[1] == name@[n - 3] && tail[2] == name@[n - 2] && tail[3]
        == name@[n - 1]);
    assert(r ==> tail == seq!['.' as u8, 'x' as u8, 'm' as u8, 'l' as u8]);
    r
}

/// Adds the paths of the manifest fragments of one directory.
fn push_fragments(paths: &mut Vec<Vec<u8>>, directory: &str, names: &Vec<Vec<u8>>)
    ensures
        final(paths).deep_view() == old(paths).deep_view() + fragment_paths(
            directory,
            names.deep_view(),
        ),
{
    let ghost before = paths.deep_view();
    let ghost all = names.deep_view();
    let ghost is_fragment = |name: Seq<u8>| names_xml(name);
    let ghost path_of = |name: Seq<u8>| entry_path(directory, name);
    assert(all.take(0).filter(is_fragment) == Seq::<Seq<u8>>::empty()) by {
        reveal(Seq::filter);
    }
    for i in 0..names.len()
        invariant
            all == names.deep_view(),
            is_fragment == (|name: Seq<u8>| names_xml(name)),
            path_of == (|name: Seq<u8>| entry_path(directory, name)),
            paths.deep_view() == before + all.take(i as int).filter(is_fragment).map_values(
                path_of,
            ),
    {
        let name = &names[i];
        let ghost so_far = paths.deep_view();
        assert(all[i as int] == name@);
        assert(all.take(i + 1).drop_last() == all.take(i as int));
        assert(all.take(i + 1).last() == name@);
        reveal(Seq::filter);
        if has_xml_extension(name) {
            let mut path: Vec<u8> = directory.as_bytes_vec();
            path.push('/' as u8);
            let mut rest = name.clone();
            path.append(&mut rest);
            assert(path@ == entry_path(directory, name@));
            assert(path.deep_view() == path@);
            paths.push(path);
            assert(paths.deep_view() == so_far.push(path@));
        }
    }
    assert(all.take(names.len() as int) == all);
}

/// Lists the manifests of the device: the fragments among the entries of
/// [`VINTF_MANIFEST_DIRS`], then [`VINTF_MANIFEST_FILES`].
///
/// `listings` holds the entry names of each directory, or `None` for one that
/// could not be read. Names and paths are bytes, as the system has them.
pub fn manifest_paths(listings: &[Option<Vec<Vec<u8>>>; 5]) -> (r: Vec<Vec<u8>>)
    ensures
        r.deep_view() == scanned_paths(listings.deep_view()) + fixed_paths(),
{
    let ghost all = listings.deep_view();
    let mut paths: Vec<Vec<u8>> = Vec::new();
    for i in 0..5usize
        invariant
            all == listings.deep_view(),
            paths.deep_view() == scanned_paths(all.take(i as int)),
    {
        assert(all.take(i + 1).drop_last() == all.take(i as int));
        match &listings[i] {
            None => {
                assert(all[i as int] is None);
            },
            Some(names) => {
                assert(all[i as int] == Some(names.deep_view()));
                push_fragments(&mut paths, VINTF_MANIFEST_DIRS[i], names);
            },
        }
    }
    assert(all.take(5) == all);
    let ghost scanned = paths.deep_view();
    for i in 0..5usize
        invariant
            paths.deep_view() == scanned + fixed_paths().take(i as int),
    {
        let ghost so_far = paths.deep_view();
        let path: Vec<u8> = VINTF_MANIFEST_FILES[i].as_bytes_vec();
        assert(path.deep_view() == path@);
        paths.push(path);
        assert(paths.deep_view() == so_far.push(path@));
        assert(fixed_paths().take(i + 1) == fixed_paths().take(i as int).push(path@));
    }
    assert(fixed_paths().take(5) == fixed_paths());
    paths
}

} // verus!
