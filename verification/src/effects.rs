//! What the steps of a strategy do to the files of a machine, taken together.

use vstd::prelude::*;
use crate::appimage::{
    first_regular, law_first_file_is_found, law_image_takes_place, promotion, Found,
};
use crate::archive::{
    archive_listing, entry_fits, extraction, is_extraction, is_layout, is_reading, laying_out,
    lies_below, EntryView,
};
use crate::args::ArgsView;
use crate::carry::{law_image_is_replaced, lies_right_in};
use crate::files::{after_all, same_at, Files, PlanView};
use crate::host::{HostView, Platform};
use crate::install::{
    installation, lemma_names_differ, temp_staging, BundleFacts, Step, Task,
};
use crate::merge::{merging, Listing};
use crate::overlay::{
    chained, discarded, is_clear_way, is_elsewhere, is_empty_below, is_not_of_package, is_tidy,
    law_extraction_writes, law_update_overlays, lemma_elsewhere, lemma_extracted_names,
    lemma_joined_chained, lemma_joined_shift, lemma_laid_out_writes, lemma_opened_joined,
    lemma_package_way, lemma_unambiguous, no_dir_at, package_file, tells_all, unpacked, updated,
};
use crate::path::{
    are_file_names, is_file_name, is_separator, joined, joined_all, lemma_base_is_not_below,
    main_separator, opened, parent_of, Style,
};
use crate::staging::{
    is_solid, law_staging_apart, lemma_rootless_name, lemma_staging_name, staging_name, staging_of,
};
use crate::text::{decimal, is_digit, lemma_decimal};

verus! {

/// What `found` tells of a directory is true and all that there is to tell.
pub open spec fn is_found(
    style: Style,
    dir: Seq<char>,
    found: Seq<Found<Seq<char>>>,
    files: Files,
) -> bool {
    &&& forall|i: int|
        0 <= i < found.len() ==> match #[trigger] found[i] {
            Found::File { path } => lies_right_in(style, dir, path) && files.dom().contains(path),
            Found::Other => true,
            Found::Unknown => false,
        }
    &&& forall|path: Seq<char>| #[trigger]
        lies_right_in(style, dir, path) && files.dom().contains(path) ==> found.contains(
            Found::File { path },
        )
}

/// A file that lies right in a directory and is a leftover of a download.
pub open spec fn is_leftover(style: Style, dir: Seq<char>, path: Seq<char>) -> bool {
    lies_right_in(style, dir, path) && ".qdtmp"@.is_suffix_of(path)
}

/// `path` is where a file below `from` goes to when it is copied below `onto`.
pub open spec fn is_copy_place(
    style: Style,
    from: Seq<char>,
    onto: Seq<char>,
    files: Files,
    path: Seq<char>,
) -> bool {
    exists|rel: Seq<Seq<char>>|
        rel.len() > 0 && are_file_names(style, rel) && files.dom().contains(
            #[trigger] joined_all(style, from, rel),
        ) && path == joined_all(style, onto, rel)
}

/// All that is below `from` was copied below `onto`, and then removed with `from`.
/// With `sweep`, leftovers of downloads in `onto` were removed too.
pub open spec fn is_copied_over(
    style: Style,
    from: Seq<char>,
    onto: Seq<char>,
    sweep: bool,
    files: Files,
    new: Files,
) -> bool {
    &&& is_empty_below(style, from, new)
    &&& forall|rel: Seq<Seq<char>>|
        rel.len() > 0 && are_file_names(style, rel) && files.dom().contains(
            #[trigger] joined_all(style, from, rel),
        ) ==> {
            let path = joined_all(style, onto, rel);
            !lies_below(style, from, path) && !(sweep && is_leftover(style, onto, path)) ==> {
                &&& new.dom().contains(path)
                &&& new[path] == files[joined_all(style, from, rel)]
            }
        }
    &&& forall|path: Seq<char>|
        !lies_below(style, from, path) && !is_copy_place(style, from, onto, files, path) && !(sweep
            && is_leftover(style, onto, path)) ==> #[trigger] same_at(files, new, path)
}

/// What a task that succeeds makes of the files: it is told by the plan of the task,
/// where there is one, made from what the files are before.
pub open spec fn performs(
    platform: Platform,
    task: Task<Seq<char>>,
    files: Files,
    new: Files,
) -> bool {
    let style = platform.path_style();
    match task {
        Task::Create { .. } => new == files,
        Task::Discard { tree } => new == discarded(style, files, tree),
        Task::Unpack { package, into, dir_modes } => {
            &&& files.dom().contains(package)
            &&& archive_listing(files[package].data) is Ok
            &&& exists|plan: PlanView|
                new == #[trigger] after_all(files, plan.ops) && plan.fault is None && {
                    let stored = archive_listing(files[package].data)->Ok_0;
                    if dir_modes {
                        is_extraction(plan, platform, into, stored)
                    } else {
                        is_layout(plan, platform, into, stored)
                    }
                }
        },
        Task::Merge { from, into } => exists|listing: Listing|
            is_tidy(style, listing) && tells_all(style, from, listing, files) && new == after_all(
                files,
                #[trigger] merging(style, from, into, listing).ops,
            ),
        Task::Promote { from, onto } => exists|found: Seq<Found<Seq<char>>>| #[trigger]
            is_found(style, from, found, files) && {
                let plan = promotion(
                    platform,
                    first_regular(found),
                    onto,
                    files.dom().contains(onto),
                );
                plan.fault is None && new == after_all(files, plan.ops)
            },
        Task::Elevate { from, onto, sweep } => is_copied_over(
            style,
            from,
            onto,
            sweep,
            files,
            new,
        ),
    }
}

/// The files before the first step, between the steps, and after the last, where
/// every step succeeds.
pub open spec fn is_run(
    platform: Platform,
    steps: Seq<Step<Seq<char>>>,
    states: Seq<Files>,
) -> bool {
    &&& states.len() == steps.len() + 1
    &&& forall|i: int|
        0 <= i < steps.len() ==> performs(
            platform,
            (#[trigger] steps[i]).task,
            states[i],
            states[i + 1],
        )
}

/// The entries of a package, as they were read.
pub open spec fn is_read_of(package: Seq<u8>, read: Seq<Result<EntryView, Seq<char>>>) -> bool {
    &&& archive_listing(package) is Ok
    &&& read.len() == archive_listing(package)->Ok_0.len()
    &&& forall|i: int|
        0 <= i < read.len() ==> entry_fits(#[trigger] read[i], archive_listing(package)->Ok_0[i])
}

/// What is discarded is gone, and nothing else.
proof fn lemma_discarded(style: Style, files: Files, tree: Seq<char>)
    ensures
        is_empty_below(style, tree, discarded(style, files, tree)),
        forall|path: Seq<char>|
            !lies_below(style, tree, path) ==> #[trigger] same_at(
                files,
                discarded(style, files, tree),
                path,
            ),
{
    let new = discarded(style, files, tree);
    assert forall|rel: Seq<Seq<char>>|
        rel.len() > 0 && are_file_names(style, rel) implies !new.dom().contains(
        #[trigger] joined_all(style, tree, rel),
    ) by {
        assert(lies_below(style, tree, joined_all(style, tree, rel)));
    }
}

/// What lies below a directory is not there where the directory is empty below.
proof fn lemma_nothing_below(style: Style, base: Seq<char>, files: Files, path: Seq<char>)
    requires
        is_empty_below(style, base, files),
        lies_below(style, base, path),
    ensures
        !files.dom().contains(path),
{
}

/// Unpacking without a fault reads the whole package.
proof fn lemma_unpacked(
    platform: Platform,
    package: Seq<char>,
    into: Seq<char>,
    dir_modes: bool,
    files: Files,
    new: Files,
) -> (read: Seq<Result<EntryView, Seq<char>>>)
    requires
        performs(platform, Task::Unpack { package, into, dir_modes }, files, new),
    ensures
        is_read_of(files[package].data, read),
        laying_out(platform, into, read).fault is None,
        dir_modes ==> new == after_all(files, extraction(platform, into, read).ops),
        !dir_modes ==> new == unpacked(platform, into, read, files),
{
    let stored = archive_listing(files[package].data)->Ok_0;
    let plan = choose|plan: PlanView|
        new == #[trigger] after_all(files, plan.ops) && plan.fault is None && if dir_modes {
            is_extraction(plan, platform, into, stored)
        } else {
            is_layout(plan, platform, into, stored)
        };
    if dir_modes {
        choose|read: Seq<Result<EntryView, Seq<char>>>| #[trigger]
            is_reading(platform, into, read, stored) && plan == extraction(platform, into, read)
    } else {
        choose|read: Seq<Result<EntryView, Seq<char>>>| #[trigger]
            is_reading(platform, into, read, stored) && plan == laying_out(platform, into, read)
    }
}

/// Where nothing lies in two directories at once.
proof fn lemma_apart(style: Style, staging: Seq<char>, dir: Seq<char>, path: Seq<char>)
    requires
        is_elsewhere(style, staging, dir),
        lies_below(style, dir, path),
    ensures
        !lies_below(style, staging, path),
{
    let s = choose|s: Seq<Seq<char>>|
        s.len() > 0 && are_file_names(style, s) && path == #[trigger] joined_all(style, dir, s);
    if lies_below(style, staging, path) {
        let r = choose|r: Seq<Seq<char>>|
            r.len() > 0 && are_file_names(style, r) && path == #[trigger] joined_all(
                style,
                staging,
                r,
            );
        lemma_elsewhere(style, staging, dir, r, s);
    }
}

/// The files of the package lie below `dir`, with the contents and permission bits
/// that the package gives them, and every file is as it was that is neither of the
/// package nor in the staging directory.
pub open spec fn is_updated(
    platform: Platform,
    staging: Seq<char>,
    dir: Seq<char>,
    read: Seq<Result<EntryView, Seq<char>>>,
    files: Files,
    new: Files,
) -> bool {
    &&& forall|rel: Seq<Seq<char>>|
        (#[trigger] package_file(platform, read, rel)) is Some && (parent_of(
            platform.path_style(),
            dir,
        ) is Some || is_clear_way(platform, staging, dir, read, rel) && !lies_below(
            platform.path_style(),
            staging,
            joined_all(platform.path_style(), dir, rel),
        )) ==> {
            let path = joined_all(platform.path_style(), dir, rel);
            &&& new.dom().contains(path)
            &&& new[path] == package_file(platform, read, rel)->0
        }
    &&& forall|path: Seq<char>|
        !lies_below(platform.path_style(), staging, path) && is_not_of_package(
            platform,
            dir,
            read,
            path,
        ) ==> #[trigger] same_at(files, new, path)
}

/// An update of a directory, by the `dir` strategy or, where the user may write to
/// the bundle, by the `app` strategy. Once all its steps are done, every file of the
/// package lies below the directory, with the contents and permission bits that the
/// package gives it. Every other file is as it was before, below the directory and
/// elsewhere, and nothing is left in the staging directory. Only a root, which has
/// its staging directory in it, does not get files that would lie there.
pub proof fn law_directory_is_updated(
    args: ArgsView,
    host: HostView,
    facts: BundleFacts,
    dir: Seq<char>,
    states: Seq<Files>,
)
    requires
        (args.strategy == "dir"@ && args.install_dir == Some(dir)) || (args.strategy == "app"@
            && args.app_bundle == Some(dir) && facts.is_dir && facts.writable),
        installation(args, host, facts) is Ok ==> is_run(
            host.platform,
            installation(args, host, facts)->Ok_0,
            states,
        ),
    ensures
        installation(args, host, facts) is Ok,
        ({
            let style = host.platform.path_style();
            let staging = staging_of(style, dir, "dir"@);
            let new = states.last();
            &&& is_empty_below(style, staging, new)
            &&& exists|read: Seq<Result<EntryView, Seq<char>>>| #[trigger]
                is_read_of(states[0][args.package].data, read) && is_updated(
                    host.platform,
                    staging,
                    dir,
                    read,
                    states[0],
                    new,
                )
        }),
{
    reveal(installation);
    reveal_strlit("dir");
    lemma_names_differ();
    let platform = host.platform;
    let style = platform.path_style();
    let staging = staging_of(style, dir, "dir"@);
    let steps = installation(args, host, facts)->Ok_0;
    assert(steps.len() == 6);
    assert(is_solid(style, "dir"@));
    let s0 = states[0];
    let start = states[3];
    let full = states[4];
    let merged = states[5];
    let new = states[6];
    assert(states.last() == new);
    assert(performs(platform, steps[0].task, s0, states[1]));
    assert(performs(platform, steps[1].task, states[1], states[2]));
    assert(performs(platform, steps[2].task, states[2], start));
    assert(performs(platform, steps[3].task, start, full));
    assert(performs(platform, steps[4].task, full, merged));
    assert(performs(platform, steps[5].task, merged, new));
    assert(start == discarded(style, s0, staging));
    lemma_discarded(style, s0, staging);
    lemma_discarded(style, merged, staging);
    let read = lemma_unpacked(platform, args.package, staging, false, start, full);
    if lies_below(style, staging, args.package) {
        lemma_nothing_below(style, staging, start, args.package);
    }
    assert(same_at(s0, start, args.package));
    let listing = choose|listing: Listing|
        is_tidy(style, listing) && tells_all(style, staging, listing, full) && merged == after_all(
            full,
            #[trigger] merging(style, staging, dir, listing).ops,
        );
    assert(merged == updated(platform, dir, "dir"@, read, start, listing));
    law_update_overlays(platform, dir, "dir"@, read, start, listing);
    lemma_extracted_names(platform, staging, read);
    assert forall|rel: Seq<Seq<char>>|
        (#[trigger] package_file(platform, read, rel)) is Some && (parent_of(style, dir) is Some
            || is_clear_way(platform, staging, dir, read, rel) && !lies_below(
            style,
            staging,
            joined_all(style, dir, rel),
        )) implies {
        let path = joined_all(style, dir, rel);
        &&& new.dom().contains(path)
        &&& new[path] == package_file(platform, read, rel)->0
    } by {
        let path = joined_all(style, dir, rel);
        lemma_package_way(platform, read, rel);
        assert(lies_below(style, dir, path));
        if parent_of(style, dir) is Some {
            law_staging_apart(style, dir, "dir"@);
            lemma_apart(style, staging, dir, path);
        }
        assert(same_at(merged, new, path));
    }
    assert forall|path: Seq<char>|
        !lies_below(style, staging, path) && is_not_of_package(
            platform,
            dir,
            read,
            path,
        ) implies #[trigger] same_at(s0, new, path) by {
        assert(same_at(s0, start, path));
        assert(is_not_of_package(platform, staging, read, path)) by {
            assert forall|rel: Seq<Seq<char>>|
                (#[trigger] package_file(platform, read, rel)) is Some implies path != joined_all(
                style,
                staging,
                rel,
            ) by {
                lemma_package_way(platform, read, rel);
                assert(lies_below(style, staging, joined_all(style, staging, rel)));
            }
        }
        assert(same_at(start, merged, path));
        assert(same_at(merged, new, path));
    }
    assert(is_updated(platform, staging, dir, read, s0, new));
    assert(is_read_of(s0[args.package].data, read));
}

/// What lies right in a directory lies below it.
proof fn lemma_right_in(style: Style, dir: Seq<char>, path: Seq<char>)
    requires
        lies_right_in(style, dir, path),
    ensures
        lies_below(style, dir, path),
        exists|name: Seq<char>|
            is_file_name(style, name) && path == joined_all(style, dir, #[trigger] seq![name]),
{
    let name = choose|name: Seq<char>| #[trigger]
        is_file_name(style, name) && path == joined(style, dir, name);
    let one = seq![name];
    lemma_joined_shift(style, dir, name, seq![]);
    assert(one + Seq::<Seq<char>>::empty() =~= one);
    assert(joined_all(style, joined(style, dir, name), seq![]) == path);
    assert(are_file_names(style, one));
    assert(path == joined_all(style, dir, one));
}

/// A target does not lie in its staging directory.
proof fn lemma_target_not_staged(style: Style, target: Seq<char>, tag: Seq<char>)
    requires
        is_solid(style, tag),
    ensures
        !lies_below(style, staging_of(style, target, tag), target),
{
    let staging = staging_of(style, target, tag);
    if lies_below(style, staging, target) {
        let rel = choose|rel: Seq<Seq<char>>|
            rel.len() > 0 && are_file_names(style, rel) && target == #[trigger] joined_all(
                style,
                staging,
                rel,
            );
        lemma_joined_chained(style, staging, rel);
        if parent_of(style, target) is Some {
            law_staging_apart(style, target, tag);
            assert(is_file_name(style, rel[rel.len() - 1]));
            lemma_opened_joined(style, joined_all(style, staging, rel.drop_last()), rel.last());
            let a = opened(style, staging);
            let b = opened(style, target);
            assert(b.subrange(0, a.len() as int) =~= a);
        } else {
            lemma_rootless_name(style, target);
            lemma_staging_name(style, tag);
            let own = staging_name(tag, None);
            lemma_opened_joined(style, target, own);
            let rest = own.push(main_separator(style)) + chained(style, rel);
            assert(target =~= opened(style, target) + rest);
            assert(!is_separator(style, own[0]));
            if rest[0] == '\\' {
                lemma_unix_opened(target);
            } else {
                lemma_base_is_not_below(style, target, rest);
            }
        }
    }
}

proof fn lemma_unix_opened(base: Seq<char>)
    ensures
        opened(Style::Unix, base).len() >= base.len(),
{
}

/// An update of a single file by the `appimage` strategy. Once all its steps are
/// done, the target has the contents of a file that the package has at its top, and
/// everyone may run it, where files have permission bits. Every other file is as it
/// was before, and nothing is left in the staging directory.
pub proof fn law_image_is_updated(
    args: ArgsView,
    host: HostView,
    facts: BundleFacts,
    target: Seq<char>,
    states: Seq<Files>,
)
    requires
        args.strategy == "appimage"@,
        args.appimage == Some(target),
        installation(args, host, facts) is Ok ==> is_run(
            host.platform,
            installation(args, host, facts)->Ok_0,
            states,
        ),
    ensures
        installation(args, host, facts) is Ok,
        ({
            let style = host.platform.path_style();
            let staging = staging_of(style, target, "appimage"@);
            let new = states.last();
            &&& is_empty_below(style, staging, new)
            &&& forall|path: Seq<char>|
                path != target && !lies_below(style, staging, path) ==> #[trigger] same_at(
                    states[0],
                    new,
                    path,
                )
            &&& exists|read: Seq<Result<EntryView, Seq<char>>>, name: Seq<char>| #[trigger]
                is_read_of(states[0][args.package].data, read) && #[trigger] is_image_of(
                    host.platform,
                    read,
                    name,
                    states.last(),
                    target,
                )
        }),
{
    reveal(installation);
    reveal_strlit("appimage");
    lemma_names_differ();
    let platform = host.platform;
    let style = platform.path_style();
    let staging = staging_of(style, target, "appimage"@);
    let steps = installation(args, host, facts)->Ok_0;
    assert(steps.len() == 5);
    assert(is_solid(style, "appimage"@));
    let s0 = states[0];
    let start = states[2];
    let full = states[3];
    let promoted = states[4];
    let new = states[5];
    assert(states.last() == new);
    assert(performs(platform, steps[0].task, s0, states[1]));
    assert(performs(platform, steps[1].task, states[1], start));
    assert(performs(platform, steps[2].task, start, full));
    assert(performs(platform, steps[3].task, full, promoted));
    assert(performs(platform, steps[4].task, promoted, new));
    lemma_discarded(style, s0, staging);
    lemma_discarded(style, promoted, staging);
    let read = lemma_unpacked(platform, args.package, staging, false, start, full);
    if lies_below(style, staging, args.package) {
        lemma_nothing_below(style, staging, start, args.package);
    }
    assert(same_at(s0, start, args.package));
    lemma_extracted_names(platform, staging, read);
    lemma_laid_out_writes(platform, staging, read, start);
    let found = choose|found: Seq<Found<Seq<char>>>| #[trigger]
        is_found(style, staging, found, full) && {
            let plan = promotion(
                platform,
                first_regular(found),
                target,
                full.dom().contains(target),
            );
            plan.fault is None && promoted == after_all(full, plan.ops)
        };
    assert(first_regular(found) is Some);
    let image = first_regular(found)->0;
    law_first_file_is_found(found, image);
    let at = choose|i: int|
        0 <= i < found.len() && #[trigger] found[i] == (Found::File { path: image }) && forall|
            k: int,
        |
            0 <= k < i ==> #[trigger] found[k] is Other;
    assert(lies_right_in(style, staging, image) && full.dom().contains(image));
    lemma_right_in(style, staging, image);
    lemma_target_not_staged(style, target, "appimage"@);
    assert(image != target);
    law_image_takes_place(platform, image, target, full.dom().contains(target), full);
    law_image_is_replaced(platform, image, target, full);
    assert forall|path: Seq<char>| !lies_below(style, staging, path) implies #[trigger] same_at(
        start,
        full,
        path,
    ) by {
        assert(is_not_of_package(platform, staging, read, path)) by {
            assert forall|rel: Seq<Seq<char>>|
                (#[trigger] package_file(platform, read, rel)) is Some implies path != joined_all(
                style,
                staging,
                rel,
            ) by {
                lemma_package_way(platform, read, rel);
                assert(lies_below(style, staging, joined_all(style, staging, rel)));
            }
        }
    }
    assert forall|path: Seq<char>|
        path != target && !lies_below(style, staging, path) implies #[trigger] same_at(
        s0,
        new,
        path,
    ) by {
        assert(same_at(s0, start, path));
        assert(same_at(start, full, path));
        assert(same_at(full, promoted, path));
        assert(same_at(promoted, new, path));
    }
    assert(same_at(promoted, new, target));
    let name = choose|name: Seq<char>|
        is_file_name(style, name) && image == joined_all(style, staging, #[trigger] seq![name]);
    let rel = seq![name];
    assert(package_file(platform, read, rel) is Some) by {
        if package_file(platform, read, rel) is None {
            lemma_unambiguous(style, staging);
            assert(are_file_names(style, rel));
            assert(is_not_of_package(platform, staging, read, image)) by {
                assert forall|other: Seq<Seq<char>>|
                    (#[trigger] package_file(platform, read, other)) is Some implies image
                    != joined_all(style, staging, other) by {
                    lemma_package_way(platform, read, other);
                }
            }
            assert(same_at(start, full, image));
            lemma_nothing_below(style, staging, start, image);
        }
    }
    assert(is_image_of(platform, read, name, new, target));
    assert(is_read_of(s0[args.package].data, read));
}

/// What is at `target` has the contents of the file that the package has under
/// `name`, and everyone may run it, where files have permission bits.
pub open spec fn is_image_of(
    platform: Platform,
    read: Seq<Result<EntryView, Seq<char>>>,
    name: Seq<char>,
    files: Files,
    target: Seq<char>,
) -> bool {
    let file = package_file(platform, read, seq![name]);
    &&& file is Some
    &&& files.dom().contains(target)
    &&& files[target].data == file->0.data
    &&& platform != Platform::Windows ==> files[target].mode == Some(0o755u32)
}

/// The files of the package lie below `onto`, with the contents that the package gives
/// them, unless they are leftovers of downloads there, and every file is as it was
/// that is neither of the package, nor such a leftover, nor in the staging directory.
pub open spec fn is_laid_over(
    platform: Platform,
    staging: Seq<char>,
    onto: Seq<char>,
    sweep: bool,
    read: Seq<Result<EntryView, Seq<char>>>,
    files: Files,
    new: Files,
) -> bool {
    &&& forall|rel: Seq<Seq<char>>|
        (#[trigger] package_file(platform, read, rel)) is Some && !lies_below(
            platform.path_style(),
            staging,
            joined_all(platform.path_style(), onto, rel),
        ) && !(sweep && is_leftover(
            platform.path_style(),
            onto,
            joined_all(platform.path_style(), onto, rel),
        )) ==> {
            let path = joined_all(platform.path_style(), onto, rel);
            &&& new.dom().contains(path)
            &&& new[path].data == package_file(platform, read, rel)->0.data
            &&& no_dir_at(read, rel) ==> new[path] == package_file(platform, read, rel)->0
        }
    &&& forall|path: Seq<char>|
        !lies_below(platform.path_style(), staging, path) && is_not_of_package(
            platform,
            onto,
            read,
            path,
        ) && !(sweep && is_leftover(platform.path_style(), onto, path)) ==> #[trigger] same_at(
            files,
            new,
            path,
        )
}

/// An update with elevated rights: of the root directory by the `system` strategy, on
/// Linux, or of a bundle that the user may not write to by the `app` strategy. Once
/// all its steps are done, every file of the package lies below the root or the
/// bundle, every other file is as it was before, and nothing is left in the staging
/// directory, which lies right in the directory for temporary files. In a bundle the
/// leftovers of downloads are removed.
pub proof fn law_elevated_update(
    args: ArgsView,
    host: HostView,
    facts: BundleFacts,
    onto: Seq<char>,
    states: Seq<Files>,
)
    requires
        (args.strategy == "system"@ && host.platform == Platform::Linux && onto == "/"@) || (
        args.strategy == "app"@ && args.app_bundle == Some(onto) && facts.is_dir
            && !facts.writable),
        installation(args, host, facts) is Ok ==> is_run(
            host.platform,
            installation(args, host, facts)->Ok_0,
            states,
        ),
    ensures
        installation(args, host, facts) is Ok,
        exists|staging: Seq<char>, read: Seq<Result<EntryView, Seq<char>>>|
            {
                &&& #[trigger] lies_right_in(host.platform.path_style(), host.temp_dir, staging)
                &&& is_empty_below(host.platform.path_style(), staging, states.last())
                &&& #[trigger] is_read_of(states[0][args.package].data, read)
                &&& is_laid_over(
                    host.platform,
                    staging,
                    onto,
                    args.strategy == "app"@,
                    read,
                    states[0],
                    states.last(),
                )
            },
{
    reveal(installation);
    lemma_names_differ();
    let platform = host.platform;
    let style = platform.path_style();
    let sweep = args.strategy == "app"@;
    let label = if sweep {
        "app"@
    } else {
        "system"@
    };
    let staging = temp_staging(host, label);
    lemma_temp_staging_right_in(host, sweep);
    let steps = installation(args, host, facts)->Ok_0;
    assert(steps.len() == 4);
    let s0 = states[0];
    let start = states[2];
    let full = states[3];
    let new = states[4];
    assert(states.last() == new);
    assert(performs(platform, steps[0].task, s0, states[1]));
    assert(performs(platform, steps[1].task, states[1], start));
    assert(performs(platform, steps[2].task, start, full));
    assert(performs(platform, steps[3].task, full, new));
    lemma_discarded(style, s0, staging);
    let read = lemma_unpacked(platform, args.package, staging, true, start, full);
    if lies_below(style, staging, args.package) {
        lemma_nothing_below(style, staging, start, args.package);
    }
    assert(same_at(s0, start, args.package));
    lemma_extracted_names(platform, staging, read);
    law_extraction_writes(platform, staging, read, start);
    assert forall|rel: Seq<Seq<char>>|
        (#[trigger] package_file(platform, read, rel)) is Some && !lies_below(
            style,
            staging,
            joined_all(style, onto, rel),
        ) && !(sweep && is_leftover(style, onto, joined_all(style, onto, rel))) implies {
        let path = joined_all(style, onto, rel);
        &&& new.dom().contains(path)
        &&& new[path].data == package_file(platform, read, rel)->0.data
        &&& no_dir_at(read, rel) ==> new[path] == package_file(platform, read, rel)->0
    } by {
        lemma_package_way(platform, read, rel);
        assert(full.dom().contains(joined_all(style, staging, rel)));
    }
    assert forall|path: Seq<char>|
        !lies_below(style, staging, path) && is_not_of_package(platform, onto, read, path) && !(
        sweep && is_leftover(style, onto, path)) implies #[trigger] same_at(s0, new, path) by {
        assert(same_at(s0, start, path));
        assert(is_not_of_package(platform, staging, read, path)) by {
            assert forall|rel: Seq<Seq<char>>|
                (#[trigger] package_file(platform, read, rel)) is Some implies path != joined_all(
                style,
                staging,
                rel,
            ) by {
                lemma_package_way(platform, read, rel);
                assert(lies_below(style, staging, joined_all(style, staging, rel)));
            }
        }
        assert(same_at(start, full, path));
        assert(!is_copy_place(style, staging, onto, full, path)) by {
            if is_copy_place(style, staging, onto, full, path) {
                let rel = choose|rel: Seq<Seq<char>>|
                    rel.len() > 0 && are_file_names(style, rel) && full.dom().contains(
                        #[trigger] joined_all(style, staging, rel),
                    ) && path == joined_all(style, onto, rel);
                let from = joined_all(style, staging, rel);
                if package_file(platform, read, rel) is None {
                    lemma_unambiguous(style, staging);
                    assert(is_not_of_package(platform, staging, read, from)) by {
                        assert forall|other: Seq<Seq<char>>|
                            (#[trigger] package_file(platform, read, other)) is Some implies from
                            != joined_all(style, staging, other) by {
                            lemma_package_way(platform, read, other);
                        }
                    }
                    assert(same_at(start, full, from));
                    assert(lies_below(style, staging, from));
                    lemma_nothing_below(style, staging, start, from);
                }
            }
        }
        assert(same_at(full, new, path));
    }
    assert(is_laid_over(platform, staging, onto, sweep, read, s0, new));
    assert(is_read_of(s0[args.package].data, read));
}

/// The temporary staging directory lies right in the directory for temporary files.
proof fn lemma_temp_staging_right_in(host: HostView, is_app: bool)
    ensures
        lies_right_in(
            host.platform.path_style(),
            host.temp_dir,
            temp_staging(
                host,
                if is_app {
                    "app"@
                } else {
                    "system"@
                },
            ),
        ),
{
    let style = host.platform.path_style();
    let label = if is_app {
        "app"@
    } else {
        "system"@
    };
    let name = "qomicex-update-"@ + label + "-"@ + decimal(host.pid as nat);
    reveal_strlit("qomicex-update-");
    reveal_strlit("app");
    reveal_strlit("system");
    reveal_strlit("-");
    lemma_decimal(host.pid as nat);
    assert(name.len() > 2 && name[0] == 'q' && name[1] == 'o');
    assert(is_solid(style, decimal(host.pid as nat))) by {
        let digits = decimal(host.pid as nat);
        assert forall|i: int| 0 <= i < digits.len() implies !is_separator(
            style,
            #[trigger] digits[i],
        ) by {
            assert(is_digit(digits[i]));
        }
    }
    assert(is_solid(style, "qomicex-update-"@));
    assert(is_solid(style, label));
    assert(is_solid(style, "-"@));
    assert forall|i: int| 0 <= i < name.len() implies !is_separator(style, #[trigger] name[i]) by {
        let a = "qomicex-update-"@;
        let b = a + label;
        let c = b + "-"@;
        if i < a.len() {
            assert(name[i] == a[i]);
        } else if i < b.len() {
            assert(name[i] == label[i - a.len()]);
        } else if i < c.len() {
            assert(name[i] == "-"@[i - b.len()]);
        } else {
            assert(name[i] == decimal(host.pid as nat)[i - c.len()]);
        }
    }
    assert(is_file_name(style, name));
}

/// There is something to install by exactly where the strategy is known, has what it
/// needs, and can be had on the platform: `dir` needs a directory, `appimage` an image,
/// `app` a bundle that is a directory, and `system` Linux.
pub proof fn law_installable(args: ArgsView, host: HostView, facts: BundleFacts)
    ensures
        installation(args, host, facts) is Ok <==> {
            ||| args.strategy == "dir"@ && args.install_dir is Some
            ||| args.strategy == "appimage"@ && args.appimage is Some
            ||| args.strategy == "app"@ && args.app_bundle is Some && facts.is_dir
            ||| args.strategy == "system"@ && host.platform == Platform::Linux
        },
{
    reveal(installation);
    lemma_names_differ();
}

/// The place that a strategy installs into.
pub open spec fn is_target(args: ArgsView, target: Seq<char>) -> bool {
    ||| args.strategy == "dir"@ && args.install_dir == Some(target)
    ||| args.strategy == "appimage"@ && args.appimage == Some(target)
    ||| args.strategy == "app"@ && args.app_bundle == Some(target)
    ||| args.strategy == "system"@ && target == "/"@
}

/// The step behind the one that unpacks takes what was unpacked to the target: it is
/// merged into a directory that was made before, it replaces an image, or it is copied
/// with elevated rights.
pub open spec fn takes_to_target(
    args: ArgsView,
    steps: Seq<Step<Seq<char>>>,
    task: Task<Seq<char>>,
    unpacked_into: Seq<char>,
) -> bool {
    match task {
        Task::Merge { from, into } => {
            &&& from == unpacked_into
            &&& is_target(args, into)
            &&& steps[0].task is Create
            &&& steps[0].task->dir == into
        },
        Task::Promote { from, onto } => from == unpacked_into && is_target(args, onto),
        Task::Elevate { from, onto, sweep } => {
            &&& from == unpacked_into
            &&& is_target(args, onto)
            &&& sweep == (args.strategy == "app"@)
        },
        _ => false,
    }
}

/// The `i`-th step unpacks the package of the command line, into a directory that was
/// discarded and made anew right before, and the next one takes it to the target.
/// Directories get the permission bits of the package only where they are copied, not
/// where files are to be moved out of them.
pub open spec fn unpacks_at(args: ArgsView, steps: Seq<Step<Seq<char>>>, i: int) -> bool {
    &&& 2 <= i < steps.len() - 1
    &&& steps[i].task is Unpack
    &&& steps[i].task->package == args.package
    &&& steps[i - 2].task == Task::Discard { tree: steps[i].task->Unpack_into }
    &&& steps[i - 1].task is Create
    &&& steps[i - 1].task->dir == steps[i].task->Unpack_into
    &&& steps[i].task->dir_modes == (steps[i + 1].task is Elevate)
    &&& takes_to_target(args, steps, steps[i + 1].task, steps[i].task->Unpack_into)
    &&& steps[i + 1].rescue is Some
}

/// A step beside the `i`-th and the next one: it neither unpacks nor moves nor copies
/// anything. Nothing but the directory of the `i`-th is ever discarded.
pub open spec fn is_aside(steps: Seq<Step<Seq<char>>>, i: int, k: int) -> bool {
    &&& k != i ==> !(steps[k].task is Unpack)
    &&& k != i + 1 ==> !(steps[k].task is Merge) && !(steps[k].task is Promote) && !(
    steps[k].task is Elevate)
    &&& steps[k].task is Discard ==> steps[k].task->tree == steps[i].task->Unpack_into
    &&& steps[k].rescue is Some ==> steps[k].rescue->0 == steps[i].task->Unpack_into
}

/// What an installation does with the package, whatever the strategy. One step, and
/// one only, unpacks something: the package that was verified, under the very path of
/// the command line. The step behind it takes what was unpacked, and nothing else, to
/// the target of the strategy. Only the directory that was unpacked into is ever
/// discarded.
pub proof fn law_package_reaches_target(args: ArgsView, host: HostView, facts: BundleFacts)
    requires
        installation(args, host, facts) is Ok,
    ensures
        exists|i: int| #[trigger]
            unpacks_at(args, installation(args, host, facts)->Ok_0, i) && forall|k: int|
                0 <= k < installation(args, host, facts)->Ok_0.len() ==> #[trigger] is_aside(
                    installation(args, host, facts)->Ok_0,
                    i,
                    k,
                ),
{
    reveal(installation);
    lemma_names_differ();
    let steps = installation(args, host, facts)->Ok_0;
    let i: int = if steps.len() == 6 {
        3
    } else {
        2
    };
    assert(unpacks_at(args, steps, i));
    assert forall|k: int| 0 <= k < steps.len() implies #[trigger] is_aside(steps, i, k) by {
        assert(k == 0 || k == 1 || k == 2 || k == 3 || k == 4 || k == 5);
    }
}

/// Why there is nothing to install by.
pub proof fn law_refusal_tells_why(args: ArgsView, host: HostView, facts: BundleFacts)
    requires
        installation(args, host, facts) is Err,
    ensures
        ({
            let message = installation(args, host, facts)->Err_0;
            if args.strategy == "dir"@ {
                message == "--install-dir is required for the dir strategy"@
            } else if args.strategy == "appimage"@ {
                message == "--appimage is required for the appimage strategy"@
            } else if args.strategy == "app"@ {
                match args.app_bundle {
                    None => message == "--app-bundle is required for the app strategy"@,
                    Some(bundle) => message == "app bundle "@ + bundle + " not found"@,
                }
            } else if args.strategy == "system"@ {
                message == "elevation not supported on this platform"@
            } else {
                message == "unknown strategy: "@ + args.strategy
            }
        }),
{
    reveal(installation);
}

/// A directory that cannot be created is told by its path where it is the one to
/// install into, and only there.
pub proof fn law_target_is_named(args: ArgsView, host: HostView, facts: BundleFacts, k: int)
    requires
        installation(args, host, facts) is Ok,
        0 <= k < installation(args, host, facts)->Ok_0.len(),
        installation(args, host, facts)->Ok_0[k].task is Create,
    ensures
        ({
            let task = installation(args, host, facts)->Ok_0[k].task;
            &&& task->named ==> is_target(args, task->dir)
            &&& task->named <==> k == 0
        }),
{
    reveal(installation);
    lemma_names_differ();
}

} // verus!
