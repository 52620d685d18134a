//! Replacing an AppImage by the one in a package.

use vstd::prelude::*;
use crate::archive::keeps_modes;
use crate::args::optional;
use crate::files::{after_all, same_at, FileOp, FileOpView, FileState, Files, Plan, PlanView};
use crate::host::Platform;
use crate::merge::{replace_file, replacing};

verus! {

/// Something in a directory, as far as it could be found out.
pub enum Found<S> {
    /// A regular file.
    File { path: S },
    /// Something else.
    Other,
    /// It could not be found out what.
    Unknown,
}

impl View for Found<String> {
    type V = Found<Seq<char>>;

    open spec fn view(&self) -> Found<Seq<char>> {
        match self {
            Found::File { path } => Found::File { path: path@ },
            Found::Other => Found::Other,
            Found::Unknown => Found::Unknown,
        }
    }
}

/// What a directory holds, as text.
pub open spec fn found_view(found: Seq<Found<String>>) -> Seq<Found<Seq<char>>> {
    found.map_values(|f: Found<String>| f@)
}

/// The first regular file, where nothing unknown stands before it.
pub open spec fn first_regular(found: Seq<Found<Seq<char>>>) -> Option<Seq<char>>
    decreases found.len(),
{
    if found.len() == 0 {
        None
    } else {
        match found.first() {
            Found::File { path } => Some(path),
            Found::Other => first_regular(found.drop_first()),
            Found::Unknown => None,
        }
    }
}

/// The first regular file in a directory. `listing` tells what the directory
/// holds, in order; `None` where it could not be read.
pub fn first_file(listing: &Option<Vec<Found<String>>>) -> (r: Option<String>)
    ensures
        optional(r) == match *listing {
            Some(found) => first_regular(found_view(found@)),
            None => None,
        },
{
    let found = match listing {
        Some(found) => found,
        None => {
            return None;
        },
    };
    let ghost all = found_view(found@);
    let mut i: usize = 0;
    assert(all.skip(0) =~= all);
    while i < found.len()
        invariant
            i <= found@.len(),
            *listing == Some(*found),
            all == found_view(found@),
            first_regular(all) == first_regular(all.skip(i as int)),
        decreases found@.len() - i,
    {
        assert(all.skip(i as int).first() == found@[i as int]@);
        assert(all.skip(i as int).drop_first() =~= all.skip(i + 1));
        match &found[i] {
            Found::File { path } => {
                return Some(path.clone());
            },
            Found::Other => {},
            Found::Unknown => {
                return None;
            },
        }
        i += 1;
    }
    None
}

/// The permission bits of an AppImage: everyone may read and run it, and its
/// owner may change it.
pub const EXECUTABLE_MODE: u32 = 0o755;

/// The plan that puts an image in the place of `target`, and makes it
/// executable where the platform has permission bits.
pub open spec fn promotion(
    platform: Platform,
    image: Option<Seq<char>>,
    target: Seq<char>,
    exists: bool,
) -> PlanView {
    match image {
        Some(image) => {
            let replace = replacing(image, target, exists);
            let ops = if keeps_modes(platform) {
                replace.push(FileOp::SetMode { path: target, mode: EXECUTABLE_MODE })
            } else {
                replace
            };
            PlanView { ops, fault: None }
        },
        None => PlanView { ops: seq![], fault: Some("package contains no AppImage"@) },
    }
}

/// Plans to put an image in the place of `target`. `exists` tells whether there
/// is something at `target`.
pub fn replace_image(platform: Platform, image: &Option<String>, target: &str, exists: bool) -> (r:
    Plan)
    ensures
        r@ == promotion(platform, optional(*image), target@, exists),
{
    let mut plan = Plan::new();
    match image {
        Some(image) => {
            replace_file(&mut plan, image, target, exists);
            if platform != Platform::Windows {
                plan.push(FileOp::SetMode { path: target.to_owned(), mode: EXECUTABLE_MODE });
            }
        },
        None => {
            plan.fail("package contains no AppImage".to_owned());
        },
    }
    assert(plan@ =~= promotion(platform, optional(*image), target@, exists));
    plan
}

/// Once an image has been put in the place of `target`, the target holds what the
/// image held, and the image is gone from where it was. Where the platform has
/// permission bits, everyone may run the target. Every other file stays as it is.
pub proof fn law_image_takes_place(
    platform: Platform,
    image: Seq<char>,
    target: Seq<char>,
    exists: bool,
    files: Files,
)
    requires
        files.dom().contains(image),
        image != target,
    ensures
        ({
            let plan = promotion(platform, Some(image), target, exists);
            let new = after_all(files, plan.ops);
            &&& plan.fault is None
            &&& new.dom().contains(target)
            &&& new[target] == (FileState {
                data: files[image].data,
                mode: if keeps_modes(platform) {
                    Some(EXECUTABLE_MODE)
                } else {
                    files[image].mode
                },
            })
            &&& !new.dom().contains(image)
            &&& forall|path: Seq<char>|
                path != image && path != target ==> #[trigger] same_at(files, new, path)
        }),
{
    reveal_with_fuel(after_all, 4);
    let ops = promotion(platform, Some(image), target, exists).ops;
    let replace = replacing(image, target, exists);
    let moved: FileOpView = FileOp::Rename { from: image, to: target };
    let removed: FileOpView = FileOp::RemoveFile { path: target };
    assert(seq![moved].drop_last() =~= seq![]);
    assert(seq![removed].drop_last() =~= seq![]);
    assert(seq![removed, moved].drop_last() =~= seq![removed]);
    if keeps_modes(platform) {
        assert(ops.drop_last() =~= replace);
    }
}

/// The image is the first regular file, where all that stands before it is known to
/// be something else; without such a file there is none. A directory that holds one
/// regular file and nothing unknown gives that file, wherever it stands.
pub proof fn law_first_file_is_found(found: Seq<Found<Seq<char>>>, path: Seq<char>)
    ensures
        first_regular(found) == Some(path) <==> exists|i: int|
            0 <= i < found.len() && #[trigger] found[i] == (Found::File { path }) && forall|k: int|
                0 <= k < i ==> #[trigger] found[k] is Other,
        (forall|i: int| 0 <= i < found.len() ==> !(#[trigger] found[i] is Unknown))
            ==> (first_regular(found) is None <==> forall|i: int|
            0 <= i < found.len() ==> #[trigger] found[i] is Other),
    decreases found.len(),
{
    if found.len() > 0 {
        let rest = found.drop_first();
        law_first_file_is_found(rest, path);
        assert(found[0] == found.first());
        assert forall|i: int| 0 <= i < rest.len() implies #[trigger] rest[i] == found[i + 1] by {}
        assert forall|i: int| 1 <= i < found.len() implies #[trigger] found[i] == rest[i - 1] by {}
        if found[0] is Other {
            if first_regular(found) == Some(path) {
                let i = choose|i: int|
                    0 <= i < rest.len() && #[trigger] rest[i] == (Found::File { path }) && forall|
                        k: int,
                    |
                        0 <= k < i ==> #[trigger] rest[k] is Other;
                assert(found[i + 1] == (Found::File { path }));
                assert forall|k: int| 0 <= k < i + 1 implies #[trigger] found[k] is Other by {
                    if k > 0 {
                        assert(rest[k - 1] is Other);
                    }
                }
            }
            if exists|i: int|
                0 <= i < found.len() && #[trigger] found[i] == (Found::File { path }) && forall|
                    k: int,
                |
                    0 <= k < i ==> #[trigger] found[k] is Other {
                let i = choose|i: int|
                    0 <= i < found.len() && #[trigger] found[i] == (Found::File { path })
                        && forall|k: int| 0 <= k < i ==> #[trigger] found[k] is Other;
                assert(rest[i - 1] == (Found::File { path }));
                assert forall|k: int| 0 <= k < i - 1 implies #[trigger] rest[k] is Other by {
                    assert(found[k + 1] is Other);
                }
            }
            if forall|i: int| 0 <= i < found.len() ==> !(#[trigger] found[i] is Unknown) {
                assert forall|i: int| 0 <= i < rest.len() implies !(#[trigger] rest[i] is Unknown) by {
                    assert(!(found[i + 1] is Unknown));
                }
                if first_regular(found) is None {
                    assert forall|i: int| 0 <= i < found.len() implies #[trigger] found[i] is Other by {
                        if i > 0 {
                            assert(rest[i - 1] is Other);
                        }
                    }
                }
                if forall|i: int| 0 <= i < found.len() ==> #[trigger] found[i] is Other {
                    assert forall|i: int| 0 <= i < rest.len() implies #[trigger] rest[i] is Other by {
                        assert(found[i + 1] is Other);
                    }
                }
            }
        } else {
            assert(!(found[0] is Other));
            if found[0] == (Found::File { path }) {
                assert(forall|k: int| 0 <= k < 0 ==> #[trigger] found[k] is Other);
            }
            if exists|i: int|
                0 <= i < found.len() && #[trigger] found[i] == (Found::File { path }) && forall|
                    k: int,
                |
                    0 <= k < i ==> #[trigger] found[k] is Other {
                let i = choose|i: int|
                    0 <= i < found.len() && #[trigger] found[i] == (Found::File { path })
                        && forall|k: int| 0 <= k < i ==> #[trigger] found[k] is Other;
                if i > 0 {
                    assert(found[0] is Other);
                }
            }
        }
    }
}

} // verus!
