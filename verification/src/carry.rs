//! That plans can be carried out: what an operation needs is there when its turn
//! comes.

use vstd::prelude::*;
use crate::appimage::{law_image_takes_place, promotion};
use crate::archive::{
    dir_modes, entry_ops, extraction, is_extraction, is_layout, is_reading, is_rejected,
    laying_out, lemma_every_entry, EntryView, StoredEntry,
};
use crate::files::{
    after_all, lemma_after_all_add, same_at, FileOp, FileOpView, Files, PlanView,
};
use crate::host::Platform;
use crate::merge::{merging, merging_first, replacing, Listing, Node};
use crate::overlay::{
    has_file, has_file_first, is_clear_first, is_elsewhere, is_other_path, is_tidy, is_tidy_first,
    law_elsewhere_is_clear, lemma_clear_before, lemma_dir_mode_of, lemma_joined_shift,
    lemma_names_add, lemma_overlay, lemma_tidy_faultless, lemma_unambiguous, lemma_way,
    lemma_ways_differ, node_name,
};
use crate::path::{are_file_names, is_file_name, joined, joined_all, Style};

verus! {

/// `path` is that of something right in a directory: the directory's path with one
/// name behind it.
pub open spec fn lies_right_in(style: Style, dir: Seq<char>, path: Seq<char>) -> bool {
    exists|name: Seq<char>| #[trigger] is_file_name(style, name) && path == joined(style, dir, name)
}

/// A directory is made before the `i`-th operation.
pub open spec fn is_made_before(ops: Seq<FileOpView>, i: int, dir: Seq<char>) -> bool {
    exists|j: int| 0 <= j < i && #[trigger] ops[j] == (FileOpView::CreateDirAll { dir })
}

/// A file is written before the `i`-th operation.
pub open spec fn is_written_before(ops: Seq<FileOpView>, i: int, path: Seq<char>) -> bool {
    exists|j: int|
        0 <= j < i && #[trigger] ops[j] is WriteFile && ops[j]->WriteFile_path == path
}

/// What the `i`-th operation of an extraction needs is there: the directory that a
/// file is written into was made, and that very directory; and what gets permission
/// bits was written or made. Nothing is removed or moved.
pub open spec fn is_prepared(style: Style, ops: Seq<FileOpView>, i: int) -> bool {
    match ops[i] {
        FileOp::CreateDirAll { .. } => true,
        FileOp::WriteFile { path, .. } => exists|dir: Seq<char>| #[trigger]
            lies_right_in(style, dir, path) && is_made_before(ops, i, dir),
        FileOp::SetMode { path, .. } => is_written_before(ops, i, path) || is_made_before(
            ops,
            i,
            path,
        ),
        FileOp::RemoveFile { .. } => false,
        FileOp::Rename { .. } => false,
    }
}

/// What is prepared stays so where other operations follow.
proof fn lemma_prepared_before(style: Style, first: Seq<FileOpView>, second: Seq<FileOpView>, i: int)
    requires
        0 <= i < first.len(),
        is_prepared(style, first, i),
    ensures
        is_prepared(style, first + second, i),
{
    let all = first + second;
    let at = i;
    assert(all[at] == first[i]);
    assert forall|dir: Seq<char>|
        is_made_before(first, i, dir) implies #[trigger] is_made_before(all, at, dir) by {
        let j = choose|j: int|
            0 <= j < i && #[trigger] first[j] == (FileOpView::CreateDirAll { dir });
        assert(all[j] == first[j]);
    }
    assert forall|path: Seq<char>|
        is_written_before(first, i, path) implies #[trigger] is_written_before(all, at, path) by {
        let j = choose|j: int|
            0 <= j < i && #[trigger] first[j] is WriteFile && first[j]->WriteFile_path == path;
        assert(all[j] == first[j]);
    }
    if let FileOp::WriteFile { path, .. } = first[i] {
        let dir = choose|dir: Seq<char>| #[trigger]
            lies_right_in(style, dir, path) && is_made_before(first, i, dir);
        assert(is_made_before(all, at, dir));
    }
}

/// What is prepared stays so behind other operations.
proof fn lemma_prepared_behind(style: Style, first: Seq<FileOpView>, second: Seq<FileOpView>, i: int)
    requires
        0 <= i < second.len(),
        is_prepared(style, second, i),
    ensures
        is_prepared(style, first + second, first.len() + i),
{
    let all = first + second;
    let at = first.len() + i;
    assert(all[at] == second[i]);
    assert forall|dir: Seq<char>|
        is_made_before(second, i, dir) implies #[trigger] is_made_before(all, at, dir) by {
        let j = choose|j: int|
            0 <= j < i && #[trigger] second[j] == (FileOpView::CreateDirAll { dir });
        assert(all[first.len() + j] == second[j]);
    }
    assert forall|path: Seq<char>|
        is_written_before(second, i, path) implies #[trigger] is_written_before(all, at, path) by {
        let j = choose|j: int|
            0 <= j < i && #[trigger] second[j] is WriteFile && second[j]->WriteFile_path == path;
        assert(all[first.len() + j] == second[j]);
    }
    if let FileOp::WriteFile { path, .. } = second[i] {
        let dir = choose|dir: Seq<char>| #[trigger]
            lies_right_in(style, dir, path) && is_made_before(second, i, dir);
        assert(is_made_before(all, at, dir));
    }
}

proof fn lemma_entry_prepared(platform: Platform, staging: Seq<char>, entry: EntryView, i: int)
    requires
        0 <= i < entry_ops(platform, staging, entry).len(),
    ensures
        is_prepared(platform.path_style(), entry_ops(platform, staging, entry), i),
{
    let style = platform.path_style();
    let ops = entry_ops(platform, staging, entry);
    if entry.path.len() > 0 && !is_rejected(style, entry) && !entry.is_dir {
        let out = joined_all(style, staging, entry.path);
        let dir = joined_all(style, staging, entry.path.drop_last());
        assert(is_file_name(style, entry.path[entry.path.len() - 1]));
        assert(out == joined(style, dir, entry.path.last()));
        assert(lies_right_in(style, dir, out));
        assert(ops[0] == (FileOpView::CreateDirAll { dir }));
        assert(ops[1] is WriteFile && ops[1]->WriteFile_path == out);
        if i == 1 {
            assert(is_made_before(ops, i, dir));
        } else if i > 1 {
            assert(i == 2 && ops[2] is SetMode && ops[2]->SetMode_path == out);
            assert(is_written_before(ops, i, out));
        }
    }
}

proof fn lemma_laid_out_prepared(
    platform: Platform,
    staging: Seq<char>,
    entries: Seq<Result<EntryView, Seq<char>>>,
    i: int,
)
    requires
        0 <= i < laying_out(platform, staging, entries).ops.len(),
    ensures
        is_prepared(platform.path_style(), laying_out(platform, staging, entries).ops, i),
    decreases entries.len(),
{
    if entries.len() > 0 {
        let style = platform.path_style();
        let init = entries.drop_last();
        let before = laying_out(platform, staging, init);
        let all = laying_out(platform, staging, entries).ops;
        if before.fault is Some || entries.last() is Err {
            assert(all =~= before.ops);
            lemma_laid_out_prepared(platform, staging, init, i);
        } else {
            let own = entry_ops(platform, staging, entries.last()->Ok_0);
            assert(all == before.ops + own);
            if i < before.ops.len() {
                lemma_laid_out_prepared(platform, staging, init, i);
                lemma_prepared_before(style, before.ops, own, i);
            } else {
                lemma_entry_prepared(
                    platform,
                    staging,
                    entries.last()->Ok_0,
                    i - before.ops.len(),
                );
                lemma_prepared_behind(style, before.ops, own, i - before.ops.len());
            }
        }
    }
}

/// Whatever a package holds, its extraction makes the directory that a file lies in
/// before it writes the file, and writes or makes what it then gives permission bits.
pub proof fn law_extraction_is_prepared(
    platform: Platform,
    staging: Seq<char>,
    stored: Seq<Result<StoredEntry, Seq<char>>>,
    plan: PlanView,
    i: int,
)
    requires
        is_extraction(plan, platform, staging, stored) || is_layout(
            plan,
            platform,
            staging,
            stored,
        ),
        0 <= i < plan.ops.len(),
    ensures
        is_prepared(platform.path_style(), plan.ops, i),
{
    if is_layout(plan, platform, staging, stored) {
        let read = choose|read: Seq<Result<EntryView, Seq<char>>>| #[trigger]
            is_reading(platform, staging, read, stored) && plan == laying_out(
                platform,
                staging,
                read,
            );
        lemma_laid_out_prepared(platform, staging, read, i);
    } else {
        let read = choose|read: Seq<Result<EntryView, Seq<char>>>| #[trigger]
            is_reading(platform, staging, read, stored) && plan == extraction(
                platform,
                staging,
                read,
            );
        let laid_out = laying_out(platform, staging, read).ops;
        let modes = dir_modes(platform, staging, read);
        if laying_out(platform, staging, read).fault is Some {
            lemma_laid_out_prepared(platform, staging, read, i);
        } else if i < laid_out.len() {
            lemma_laid_out_prepared(platform, staging, read, i);
            lemma_prepared_before(platform.path_style(), laid_out, modes.reverse(), i);
        } else {
            let k = modes.len() - 1 - (i - laid_out.len());
            assert(plan.ops[i] == modes[k]);
            let at = lemma_dir_mode_of(platform, staging, read, k);
            let entry = read[at]->Ok_0;
            lemma_every_entry(platform, staging, read, at);
            let make: FileOpView = FileOp::CreateDirAll {
                dir: joined_all(platform.path_style(), staging, entry.path),
            };
            let own = entry_ops(platform, staging, entry);
            assert(own[0] == make);
            assert(own.contains(make));
            assert(laid_out.contains(make));
            let j = choose|j: int| 0 <= j < laid_out.len() && laid_out[j] == make;
            assert(plan.ops[j] == make);
            assert(is_made_before(plan.ops, i, make->dir));
        }
    }
}

/// What the `i`-th operation of a merge into `base` needs is there: a file is moved
/// right into `base` or into a directory that was made, and only what the next
/// operation replaces is removed. Nothing is written, and no permission bits change.
pub open spec fn is_ready(style: Style, base: Seq<char>, ops: Seq<FileOpView>, i: int) -> bool {
    match ops[i] {
        FileOp::CreateDirAll { .. } => true,
        FileOp::RemoveFile { path } => i + 1 < ops.len() && ops[i + 1] is Rename && ops[i + 1]->to
            == path,
        FileOp::Rename { to, .. } => exists|dir: Seq<char>| #[trigger]
            lies_right_in(style, dir, to) && (dir == base || is_made_before(ops, i, dir)),
        FileOp::WriteFile { .. } => false,
        FileOp::SetMode { .. } => false,
    }
}

proof fn lemma_made_add(first: Seq<FileOpView>, second: Seq<FileOpView>, i: int, dir: Seq<char>)
    requires
        0 <= i,
    ensures
        i <= first.len() && is_made_before(first, i, dir) ==> is_made_before(
            first + second,
            i,
            dir,
        ),
        i <= second.len() && is_made_before(second, i, dir) ==> is_made_before(
            first + second,
            first.len() + i,
            dir,
        ),
{
    let all = first + second;
    if i <= first.len() && is_made_before(first, i, dir) {
        let j = choose|j: int|
            0 <= j < i && #[trigger] first[j] == (FileOpView::CreateDirAll { dir });
        assert(all[j] == first[j]);
    }
    if i <= second.len() && is_made_before(second, i, dir) {
        let j = choose|j: int|
            0 <= j < i && #[trigger] second[j] == (FileOpView::CreateDirAll { dir });
        assert(all[first.len() + j] == second[j]);
    }
}

/// What is ready stays so where other operations follow.
proof fn lemma_ready_before(
    style: Style,
    base: Seq<char>,
    first: Seq<FileOpView>,
    second: Seq<FileOpView>,
    i: int,
)
    requires
        0 <= i < first.len(),
        is_ready(style, base, first, i),
    ensures
        is_ready(style, base, first + second, i),
{
    let all = first + second;
    assert(all[i] == first[i]);
    if i + 1 < first.len() {
        assert(all[i + 1] == first[i + 1]);
    }
    if let FileOp::Rename { to, .. } = first[i] {
        let dir = choose|dir: Seq<char>| #[trigger]
            lies_right_in(style, dir, to) && (dir == base || is_made_before(first, i, dir));
        lemma_made_add(first, second, i, dir);
        assert(lies_right_in(style, dir, to));
    }
}

/// What is ready for a merge into a directory stays so behind operations that make
/// the directory, if it is not there anyway.
proof fn lemma_ready_behind(
    style: Style,
    base: Seq<char>,
    own: Seq<char>,
    first: Seq<FileOpView>,
    second: Seq<FileOpView>,
    i: int,
)
    requires
        0 <= i < second.len(),
        is_ready(style, own, second, i),
        own == base || is_made_before(first, first.len() as int, own),
    ensures
        is_ready(style, base, first + second, first.len() + i),
{
    let all = first + second;
    let n = first.len() as int;
    assert(all[n + i] == second[i]);
    if i + 1 < second.len() {
        assert(all[n + i + 1] == second[i + 1]);
    }
    if let FileOp::Rename { to, .. } = second[i] {
        let dir = choose|dir: Seq<char>| #[trigger]
            lies_right_in(style, dir, to) && (dir == own || is_made_before(second, i, dir));
        lemma_made_add(first, second, i, dir);
        if dir == own && own != base {
            let j = choose|j: int|
                0 <= j < n && #[trigger] first[j] == (FileOpView::CreateDirAll { dir: own });
            assert(all[j] == first[j]);
        }
        assert(lies_right_in(style, dir, to));
    }
}

proof fn lemma_merge_ready(
    style: Style,
    src: Seq<char>,
    dst: Seq<char>,
    listing: Listing,
    n: nat,
    i: int,
)
    requires
        n <= listing.entries@.len(),
        is_tidy_first(style, listing, n),
        0 <= i < merging_first(style, src, dst, listing, n).ops.len(),
    ensures
        is_ready(style, dst, merging_first(style, src, dst, listing, n).ops, i),
    decreases listing, n,
{
    reveal_with_fuel(is_tidy_first, 2);
    reveal_with_fuel(merging_first, 2);
    if n > 0 {
        let m = (n - 1) as nat;
        let first = merging_first(style, src, dst, listing, m).ops;
        let all = merging_first(style, src, dst, listing, n).ops;
        lemma_tidy_faultless(style, src, dst, listing, m);
        match listing.entries@[n - 1] {
            Node::File { name, replaces } => {
                let from = joined(style, src, name@);
                let to = joined(style, dst, name@);
                let own = replacing(from, to, replaces);
                assert(all == first + own);
                if i < first.len() {
                    lemma_merge_ready(style, src, dst, listing, m, i);
                    lemma_ready_before(style, dst, first, own, i);
                } else {
                    let k = i - first.len();
                    assert(lies_right_in(style, dst, to));
                    assert(own[own.len() - 1] == (FileOpView::Rename { from, to }));
                    if replaces {
                        assert(own[0] == (FileOpView::RemoveFile { path: to }));
                    }
                    assert(own.len() == if replaces { 2int } else { 1int });
                    assert(own[k] is Rename || own[k] is RemoveFile);
                    if own[k] is RemoveFile {
                        assert(k == 0 && own[1] is Rename && own[1]->to == to);
                    } else {
                        assert(own[k]->to == to);
                    }
                    assert(is_ready(style, dst, own, k));
                    lemma_ready_behind(style, dst, dst, first, own, k);
                }
            },
            Node::Dir { name, listing: below } => {
                let from = joined(style, src, name@);
                let to = joined(style, dst, name@);
                let count = below.entries@.len();
                let make: Seq<FileOpView> = seq![FileOp::CreateDirAll { dir: to }];
                let inner = merging(style, from, to, below);
                lemma_tidy_faultless(style, from, to, below, count);
                assert(inner.ops =~= merging_first(style, from, to, below, count).ops);
                assert(all == first + make + inner.ops);
                if i < first.len() {
                    lemma_merge_ready(style, src, dst, listing, m, i);
                    lemma_ready_before(style, dst, first, make, i);
                    lemma_ready_before(style, dst, first + make, inner.ops, i);
                } else if i == first.len() {
                    assert(all[i] == make[0]);
                } else {
                    let k = i - first.len() - 1;
                    lemma_merge_ready(style, from, to, below, count, k);
                    assert((first + make)[first.len() as int] == make[0]);
                    lemma_ready_behind(style, dst, to, first + make, inner.ops, k);
                }
            },
        }
    }
}

/// Moving a staged tree over a directory makes every directory there before a file is
/// moved right into it, and removes a file only to put another in its place.
pub proof fn law_merge_is_ready(
    style: Style,
    src: Seq<char>,
    dst: Seq<char>,
    listing: Listing,
    i: int,
)
    requires
        is_tidy(style, listing),
        0 <= i < merging(style, src, dst, listing).ops.len(),
    ensures
        is_ready(style, dst, merging(style, src, dst, listing).ops, i),
{
    let count = listing.entries@.len();
    lemma_tidy_faultless(style, src, dst, listing, count);
    assert(merging(style, src, dst, listing).ops =~= merging_first(
        style,
        src,
        dst,
        listing,
        count,
    ).ops);
    lemma_merge_ready(style, src, dst, listing, count, i);
}

/// An operation on files succeeds: a file that is removed or moved is there, and
/// nothing is where a file is moved to.
pub open spec fn can_be_done(files: Files, op: FileOpView) -> bool {
    match op {
        FileOp::RemoveFile { path } => files.dom().contains(path),
        FileOp::Rename { from, to } => files.dom().contains(from) && !files.dom().contains(to),
        FileOp::SetMode { path, .. } => files.dom().contains(path),
        _ => true,
    }
}

/// Operations succeed, one after the other.
pub open spec fn can_all_be_done(files: Files, ops: Seq<FileOpView>) -> bool {
    forall|i: int|
        0 <= i < ops.len() ==> can_be_done(after_all(files, ops.take(i)), #[trigger] ops[i])
}

proof fn lemma_done_add(files: Files, first: Seq<FileOpView>, second: Seq<FileOpView>)
    requires
        can_all_be_done(files, first),
        can_all_be_done(after_all(files, first), second),
    ensures
        can_all_be_done(files, first + second),
{
    let all = first + second;
    let n = first.len() as int;
    assert forall|i: int| 0 <= i < all.len() implies can_be_done(
        after_all(files, all.take(i)),
        #[trigger] all[i],
    ) by {
        if i < n {
            assert(all.take(i) =~= first.take(i));
            assert(all[i] == first[i]);
        } else {
            assert(all.take(i) =~= first + second.take(i - n));
            lemma_after_all_add(files, first, second.take(i - n));
            assert(all[i] == second[i - n]);
        }
    }
}

/// The listing tells the truth of the first `n` entries: the files are there, and
/// something is at the place of each in `dst` exactly where the listing says so.
pub open spec fn is_true_first(
    style: Style,
    src: Seq<char>,
    dst: Seq<char>,
    listing: Listing,
    n: nat,
    files: Files,
) -> bool
    decreases listing, n,
{
    if n == 0 || n > listing.entries@.len() {
        true
    } else {
        &&& is_true_first(style, src, dst, listing, (n - 1) as nat, files)
        &&& match listing.entries@[n - 1] {
            Node::File { name, replaces } => {
                &&& files.dom().contains(joined(style, src, name@))
                &&& replaces == files.dom().contains(joined(style, dst, name@))
            },
            Node::Dir { name, listing: below } => is_true(
                style,
                joined(style, src, name@),
                joined(style, dst, name@),
                below,
                files,
            ),
        }
    }
}

/// The listing tells the truth of all its entries.
pub open spec fn is_true(
    style: Style,
    src: Seq<char>,
    dst: Seq<char>,
    listing: Listing,
    files: Files,
) -> bool
    decreases listing, listing.entries@.len() + 1,
{
    is_true_first(style, src, dst, listing, listing.entries@.len(), files)
}

/// What a listing tells stays true where the files that it tells of stay.
proof fn lemma_stays_true(
    style: Style,
    src: Seq<char>,
    dst: Seq<char>,
    listing: Listing,
    n: nat,
    files: Files,
    later: Files,
)
    requires
        n <= listing.entries@.len(),
        is_true_first(style, src, dst, listing, n, files),
        forall|rel: Seq<Seq<char>>| #[trigger]
            has_file_first(listing, n, rel) ==> same_at(files, later, joined_all(style, src, rel))
                && same_at(files, later, joined_all(style, dst, rel)),
    ensures
        is_true_first(style, src, dst, listing, n, later),
    decreases listing, n,
{
    reveal_with_fuel(is_true_first, 2);
    reveal_with_fuel(has_file_first, 2);
    if n > 0 {
        let m = (n - 1) as nat;
        assert forall|rel: Seq<Seq<char>>| #[trigger] has_file_first(listing, m, rel) implies same_at(
            files,
            later,
            joined_all(style, src, rel),
        ) && same_at(files, later, joined_all(style, dst, rel)) by {
            assert(has_file_first(listing, n, rel));
        }
        lemma_stays_true(style, src, dst, listing, m, files, later);
        let name = node_name(listing.entries@[n - 1]);
        let one = seq![name];
        lemma_joined_shift(style, src, name, seq![]);
        lemma_joined_shift(style, dst, name, seq![]);
        assert(one + Seq::<Seq<char>>::empty() =~= one);
        match listing.entries@[n - 1] {
            Node::File { .. } => {
                assert(has_file_first(listing, n, one));
                assert(joined_all(style, src, one) == joined(style, src, name));
                assert(joined_all(style, dst, one) == joined(style, dst, name));
            },
            Node::Dir { listing: below, .. } => {
                let from = joined(style, src, name);
                let to = joined(style, dst, name);
                let count = below.entries@.len();
                assert forall|rel: Seq<Seq<char>>| #[trigger]
                    has_file_first(below, count, rel) implies same_at(
                    files,
                    later,
                    joined_all(style, from, rel),
                ) && same_at(files, later, joined_all(style, to, rel)) by {
                    lemma_joined_shift(style, src, name, rel);
                    lemma_joined_shift(style, dst, name, rel);
                    lemma_has_some(below, count, rel);
                    assert((one + rel).drop_first() =~= rel);
                    assert(has_file_first(listing, n, one + rel));
                }
                lemma_stays_true(style, from, to, below, count, files, later);
            },
        }
    }
}

/// A way to a file is not empty.
proof fn lemma_has_some(listing: Listing, n: nat, rel: Seq<Seq<char>>)
    requires
        has_file_first(listing, n, rel),
    ensures
        rel.len() > 0,
    decreases n,
{
    if n > 0 && n <= listing.entries@.len() && has_file_first(listing, (n - 1) as nat, rel) {
        lemma_has_some(listing, (n - 1) as nat, rel);
    }
}

/// The files of a tree are clear, all of them.
pub open spec fn is_all_clear(
    style: Style,
    src: Seq<char>,
    dst: Seq<char>,
    listing: Listing,
    n: nat,
) -> bool {
    forall|rel: Seq<Seq<char>>| #[trigger]
        has_file_first(listing, n, rel) ==> is_clear_first(style, src, dst, listing, n, rel)
}

proof fn lemma_merge_succeeds(
    style: Style,
    src: Seq<char>,
    dst: Seq<char>,
    listing: Listing,
    n: nat,
    files: Files,
)
    requires
        n <= listing.entries@.len(),
        is_tidy_first(style, listing, n),
        is_true_first(style, src, dst, listing, n, files),
        is_all_clear(style, src, dst, listing, n),
    ensures
        can_all_be_done(files, merging_first(style, src, dst, listing, n).ops),
    decreases listing, n,
{
    reveal_with_fuel(is_tidy_first, 2);
    reveal_with_fuel(is_true_first, 2);
    reveal_with_fuel(merging_first, 2);
    reveal_with_fuel(has_file_first, 2);
    if n > 0 {
        let m = (n - 1) as nat;
        let name = node_name(listing.entries@[n - 1]);
        let from = joined(style, src, name);
        let to = joined(style, dst, name);
        let one = seq![name];
        assert(is_all_clear(style, src, dst, listing, m)) by {
            assert forall|rel: Seq<Seq<char>>| #[trigger]
                has_file_first(listing, m, rel) implies is_clear_first(
                style,
                src,
                dst,
                listing,
                m,
                rel,
            ) by {
                assert(has_file_first(listing, n, rel));
                lemma_clear_before(style, src, dst, listing, n, rel);
            }
        }
        lemma_merge_succeeds(style, src, dst, listing, m, files);
        lemma_unambiguous(style, src);
        lemma_unambiguous(style, dst);
        lemma_overlay(style, src, dst, listing, m, files);
        lemma_tidy_faultless(style, src, dst, listing, m);
        let first = merging_first(style, src, dst, listing, m).ops;
        let middle = after_all(files, first);
        lemma_joined_shift(style, src, name, seq![]);
        lemma_joined_shift(style, dst, name, seq![]);
        assert(one + Seq::<Seq<char>>::empty() =~= one);
        assert(are_file_names(style, one));
        // What lies behind the last entry is as it was.
        assert forall|rel: Seq<Seq<char>>|
            are_file_names(style, rel) && rel.len() > 0 && rel.first() == name && #[trigger] has_file_first(
                listing,
                n,
                rel,
            ) implies same_at(files, middle, joined_all(style, src, rel)) && same_at(
            files,
            middle,
            joined_all(style, dst, rel),
        ) by {
            assert(is_clear_first(style, src, dst, listing, n, rel));
            assert(is_other_path(style, src, dst, listing, m, joined_all(style, src, rel))
                && is_other_path(style, src, dst, listing, m, joined_all(style, dst, rel))) by {
                assert forall|s: Seq<Seq<char>>| #[trigger] has_file_first(listing, m, s) implies {
                    &&& joined_all(style, src, rel) != joined_all(style, src, s)
                    &&& joined_all(style, src, rel) != joined_all(style, dst, s)
                    &&& joined_all(style, dst, rel) != joined_all(style, src, s)
                    &&& joined_all(style, dst, rel) != joined_all(style, dst, s)
                } by {
                    assert(has_file_first(listing, n, s));
                    lemma_way(style, listing, m, s);
                    let j = choose|j: int|
                        0 <= j < m && s.first() == node_name(#[trigger] listing.entries@[j]);
                    assert(s.first() != rel.first());
                    lemma_ways_differ(style, src, rel, s);
                    lemma_ways_differ(style, dst, rel, s);
                }
            }
        }
        match listing.entries@[n - 1] {
            Node::File { replaces, .. } => {
                let own = replacing(from, to, replaces);
                assert(has_file_first(listing, n, one));
                assert(is_clear_first(style, src, dst, listing, n, one));
                assert(joined_all(style, src, one) == from && joined_all(style, dst, one) == to);
                assert(from != to);
                assert(same_at(files, middle, from) && same_at(files, middle, to));
                assert(can_all_be_done(middle, own)) by {
                    reveal_with_fuel(after_all, 2);
                    assert forall|i: int| 0 <= i < own.len() implies can_be_done(
                        after_all(middle, own.take(i)),
                        #[trigger] own[i],
                    ) by {
                        if i == 0 {
                            assert(own.take(0) =~= seq![]);
                        } else {
                            assert(own.take(1) =~= seq![own[0]]);
                            assert(seq![own[0]].drop_last() =~= seq![]);
                        }
                    }
                }
                lemma_done_add(files, first, own);
            },
            Node::Dir { listing: below, .. } => {
                let make: Seq<FileOpView> = seq![FileOp::CreateDirAll { dir: to }];
                let count = below.entries@.len();
                let inner = merging(style, from, to, below);
                lemma_tidy_faultless(style, from, to, below, count);
                assert(inner.ops =~= merging_first(style, from, to, below, count).ops);
                assert(can_all_be_done(middle, make));
                assert(after_all(middle, make) == middle) by {
                    assert(make.drop_last() =~= seq![]);
                    reveal_with_fuel(after_all, 2);
                }
                assert forall|rel: Seq<Seq<char>>| #[trigger] has_file_first(below, count, rel) implies {
                    &&& has_file_first(listing, n, one + rel)
                    &&& are_file_names(style, one + rel)
                    &&& joined_all(style, from, rel) == joined_all(style, src, one + rel)
                    &&& joined_all(style, to, rel) == joined_all(style, dst, one + rel)
                } by {
                    lemma_way(style, below, count, rel);
                    lemma_names_add(style, name, rel);
                    assert((one + rel).drop_first() =~= rel);
                    lemma_joined_shift(style, src, name, rel);
                    lemma_joined_shift(style, dst, name, rel);
                }
                assert forall|rel: Seq<Seq<char>>| #[trigger]
                    has_file_first(below, count, rel) implies same_at(
                    files,
                    middle,
                    joined_all(style, from, rel),
                ) && same_at(files, middle, joined_all(style, to, rel)) by {
                    assert((one + rel).first() == name);
                    assert(has_file_first(listing, n, one + rel));
                }
                lemma_stays_true(style, from, to, below, count, files, middle);
                assert(is_all_clear(style, from, to, below, count)) by {
                    assert forall|rel: Seq<Seq<char>>| #[trigger]
                        has_file_first(below, count, rel) implies is_clear_first(
                        style,
                        from,
                        to,
                        below,
                        count,
                        rel,
                    ) by {
                        assert(has_file_first(listing, n, one + rel));
                        assert(is_clear_first(style, src, dst, listing, n, one + rel));
                        assert forall|s: Seq<Seq<char>>| #[trigger]
                            has_file_first(below, count, s) implies joined_all(style, from, rel)
                            != joined_all(style, to, s) && joined_all(style, from, s)
                            != joined_all(style, to, rel) by {
                            assert(has_file_first(listing, n, one + s));
                        }
                    }
                }
                lemma_merge_succeeds(style, from, to, below, count, middle);
                lemma_done_add(files, first, make);
                lemma_after_all_add(files, first, make);
                lemma_done_add(files, first + make, inner.ops);
            },
        }
    }
}

/// Moving a staged tree over a directory succeeds, where the tree is listed
/// truthfully and neither directory lies in the other: each file is there when its
/// turn comes, and its place in the directory is free by then, also where a file was
/// there before.
pub proof fn law_merge_succeeds(
    style: Style,
    src: Seq<char>,
    dst: Seq<char>,
    listing: Listing,
    files: Files,
)
    requires
        is_tidy(style, listing),
        is_true(style, src, dst, listing, files),
        is_elsewhere(style, src, dst),
    ensures
        merging(style, src, dst, listing).fault is None,
        can_all_be_done(files, merging(style, src, dst, listing).ops),
{
    let count = listing.entries@.len();
    lemma_tidy_faultless(style, src, dst, listing, count);
    assert(merging(style, src, dst, listing).ops =~= merging_first(
        style,
        src,
        dst,
        listing,
        count,
    ).ops);
    assert forall|rel: Seq<Seq<char>>| #[trigger]
        has_file_first(listing, count, rel) implies is_clear_first(
        style,
        src,
        dst,
        listing,
        count,
        rel,
    ) by {
        assert(has_file(listing, rel));
        law_elsewhere_is_clear(style, src, dst, listing, rel);
        assert forall|s: Seq<Seq<char>>| #[trigger] has_file_first(listing, count, s) implies joined_all(
            style,
            src,
            rel,
        ) != joined_all(style, dst, s) && joined_all(style, src, s) != joined_all(
            style,
            dst,
            rel,
        ) by {
            assert(has_file(listing, s));
        }
    }
    lemma_merge_succeeds(style, src, dst, listing, count, files);
}

/// Putting an image in the place of a target succeeds, where the image is there and
/// it is known whether the target is. On every platform but Windows everyone may then
/// run the target, and its owner may change it.
pub proof fn law_image_is_replaced(
    platform: Platform,
    image: Seq<char>,
    target: Seq<char>,
    files: Files,
)
    requires
        files.dom().contains(image),
        image != target,
    ensures
        ({
            let plan = promotion(platform, Some(image), target, files.dom().contains(target));
            let new = after_all(files, plan.ops);
            &&& can_all_be_done(files, plan.ops)
            &&& new.dom().contains(target)
            &&& new[target].data == files[image].data
            &&& platform != Platform::Windows ==> new[target].mode == Some(0o755u32)
            &&& platform == Platform::Windows ==> new[target].mode == files[image].mode
        }),
        promotion(platform, None, target, files.dom().contains(target)).fault is Some,
        promotion(platform, None, target, files.dom().contains(target)).ops.len() == 0,
{
    let exists = files.dom().contains(target);
    let plan = promotion(platform, Some(image), target, exists);
    let replace = replacing(image, target, exists);
    law_image_takes_place(platform, image, target, exists, files);
    reveal_with_fuel(after_all, 4);
    assert forall|i: int| 0 <= i < plan.ops.len() implies can_be_done(
        after_all(files, plan.ops.take(i)),
        #[trigger] plan.ops[i],
    ) by {
        if i == 0 {
            assert(plan.ops.take(0) =~= seq![]);
        } else if i == 1 {
            assert(plan.ops.take(1) =~= seq![plan.ops[0]]);
            assert(seq![plan.ops[0]].drop_last() =~= seq![]);
        } else {
            assert(plan.ops.take(2) =~= seq![plan.ops[0], plan.ops[1]]);
            assert(seq![plan.ops[0], plan.ops[1]].drop_last() =~= seq![plan.ops[0]]);
            assert(seq![plan.ops[0]].drop_last() =~= seq![]);
        }
    }
}

} // verus!
