//! What installing an update does to the files of a machine: every file of the
//! package comes to its place, and every other file stays as it was.

use vstd::prelude::*;
use crate::archive::{
    dir_modes, entry_ops, extraction, is_confined, is_extraction, is_layout, is_rejected,
    keeps_modes, law_no_traversal, laying_out, lies_below, read_modes, EntryView, StoredEntry,
};
use crate::files::{
    after, after_all, lemma_after_all_add, mode_at, same_at, FileOp, FileOpView, FileState, Files,
    PlanView,
};
use crate::host::Platform;
use crate::merge::{merging, merging_first, replacing, Listing, Node};
use crate::path::{
    are_file_names, is_file_name, is_separator, joined, joined_all, lemma_base_is_not_below, lemma_head,
    lemma_opened_below_verbatim, lemma_opened_new_verbatim, main_separator, name_of, opened,
    parent_of, prefix_of, Style,
};
use crate::staging::{
    is_solid, law_staging_apart, lemma_rootless_name, lemma_staging_name, staging_name, staging_of,
};

verus! {

pub open spec fn node_name(node: Node) -> Seq<char> {
    match node {
        Node::File { name, .. } => name@,
        Node::Dir { name, .. } => name@,
    }
}

/// The first `n` entries are as a directory holds them: each has a name that it
/// can have and that none before it has, and directories could be read.
pub open spec fn is_tidy_first(style: Style, listing: Listing, n: nat) -> bool
    decreases listing, n,
{
    if n == 0 || n > listing.entries@.len() {
        n == 0
    } else {
        let node = listing.entries@[n - 1];
        &&& is_tidy_first(style, listing, (n - 1) as nat)
        &&& is_file_name(style, node_name(node))
        &&& forall|j: int|
            0 <= j < n - 1 ==> node_name(#[trigger] listing.entries@[j]) != node_name(node)
        &&& match node {
            Node::File { .. } => true,
            Node::Dir { listing: below, .. } => is_tidy(style, below),
        }
    }
}

/// The listing tells all of a directory.
pub open spec fn is_tidy(style: Style, listing: Listing) -> bool
    decreases listing, listing.entries@.len() + 1,
{
    listing.fault is None && is_tidy_first(style, listing, listing.entries@.len())
}

/// `rel` leads to a file by way of the first `n` entries.
pub open spec fn has_file_first(listing: Listing, n: nat, rel: Seq<Seq<char>>) -> bool
    decreases listing, n,
{
    if n == 0 || n > listing.entries@.len() {
        false
    } else {
        ||| has_file_first(listing, (n - 1) as nat, rel)
        ||| match listing.entries@[n - 1] {
            Node::File { name, .. } => rel == seq![name@],
            Node::Dir { name, listing: below } => rel.len() > 1 && rel.first() == name@
                && has_file(below, rel.drop_first()),
        }
    }
}

/// `rel` leads, directory by directory, to a file.
pub open spec fn has_file(listing: Listing, rel: Seq<Seq<char>>) -> bool
    decreases listing, listing.entries@.len() + 1,
{
    has_file_first(listing, listing.entries@.len(), rel)
}

/// Different ways down from `base` lead to different paths.
pub open spec fn is_unambiguous(style: Style, base: Seq<char>) -> bool {
    forall|r: Seq<Seq<char>>, s: Seq<Seq<char>>|
        are_file_names(style, r) && are_file_names(style, s) && #[trigger] joined_all(style, base, r)
            == #[trigger] joined_all(style, base, s) ==> r == s
}

/// The file at `rel` does not come from where one of the files by way of the first
/// `n` entries goes to, nor does it go to where one of them comes from.
pub open spec fn is_clear_first(
    style: Style,
    src: Seq<char>,
    dst: Seq<char>,
    listing: Listing,
    n: nat,
    rel: Seq<Seq<char>>,
) -> bool {
    forall|s: Seq<Seq<char>>| #[trigger]
        has_file_first(listing, n, s) ==> {
            &&& joined_all(style, src, rel) != joined_all(style, dst, s)
            &&& joined_all(style, src, s) != joined_all(style, dst, rel)
        }
}

/// The file at `rel` does not come from where one of the files of the tree goes to,
/// nor does it go to where one of them comes from.
pub open spec fn is_clear(
    style: Style,
    src: Seq<char>,
    dst: Seq<char>,
    listing: Listing,
    rel: Seq<Seq<char>>,
) -> bool {
    forall|s: Seq<Seq<char>>| #[trigger]
        has_file(listing, s) ==> {
            &&& joined_all(style, src, rel) != joined_all(style, dst, s)
            &&& joined_all(style, src, s) != joined_all(style, dst, rel)
        }
}

/// `path` is neither where one of the files by way of the first `n` entries
/// came from nor where it went to.
pub open spec fn is_other_path(
    style: Style,
    src: Seq<char>,
    dst: Seq<char>,
    listing: Listing,
    n: nat,
    path: Seq<char>,
) -> bool {
    forall|rel: Seq<Seq<char>>| #[trigger]
        has_file_first(listing, n, rel) ==> path != joined_all(style, src, rel) && path
            != joined_all(style, dst, rel)
}

/// `new` is `before` with the files by way of the first `n` entries moved from
/// `src` to `dst`, as far as they are there and clear, and nothing else changed.
pub open spec fn is_overlay_first(
    style: Style,
    src: Seq<char>,
    dst: Seq<char>,
    listing: Listing,
    n: nat,
    before: Files,
    new: Files,
) -> bool {
    &&& forall|rel: Seq<Seq<char>>| #[trigger]
        has_file_first(listing, n, rel) && is_clear_first(style, src, dst, listing, n, rel)
            && before.dom().contains(joined_all(style, src, rel)) ==> {
            &&& new.dom().contains(joined_all(style, dst, rel))
            &&& new[joined_all(style, dst, rel)] == before[joined_all(style, src, rel)]
            &&& !new.dom().contains(joined_all(style, src, rel))
        }
    &&& forall|path: Seq<char>| #[trigger]
        is_other_path(style, src, dst, listing, n, path) ==> same_at(before, new, path)
}

/// One step down, and then the others, are all of them together.
pub proof fn lemma_joined_shift(
    style: Style,
    base: Seq<char>,
    name: Seq<char>,
    rel: Seq<Seq<char>>,
)
    ensures
        joined_all(style, joined(style, base, name), rel) == joined_all(
            style,
            base,
            seq![name] + rel,
        ),
    decreases rel.len(),
{
    let all = seq![name] + rel;
    if rel.len() == 0 {
        assert(all.drop_last() =~= Seq::<Seq<char>>::empty());
        assert(all.last() == name);
        assert(joined_all(style, base, all.drop_last()) == base);
    } else {
        assert(all.drop_last() =~= seq![name] + rel.drop_last());
        assert(all.last() == rel.last());
        lemma_joined_shift(style, base, name, rel.drop_last());
    }
}

pub proof fn lemma_names_add(style: Style, name: Seq<char>, rel: Seq<Seq<char>>)
    requires
        is_file_name(style, name),
        are_file_names(style, rel),
    ensures
        are_file_names(style, seq![name] + rel),
{
    let all = seq![name] + rel;
    assert forall|i: int| 0 <= i < all.len() implies is_file_name(style, #[trigger] all[i]) by {
        if i > 0 {
            assert(all[i] == rel[i - 1]);
        }
    }
}

/// The directories below an unambiguous directory are unambiguous.
proof fn lemma_deeper(style: Style, src: Seq<char>, name: Seq<char>)
    requires
        is_file_name(style, name),
        is_unambiguous(style, src),
    ensures
        is_unambiguous(style, joined(style, src, name)),
{
    let a = joined(style, src, name);
    assert forall|r: Seq<Seq<char>>, s: Seq<Seq<char>>|
        are_file_names(style, r) && are_file_names(style, s) && #[trigger] joined_all(style, a, r)
            == #[trigger] joined_all(style, a, s) implies r == s by {
        lemma_joined_shift(style, src, name, r);
        lemma_joined_shift(style, src, name, s);
        lemma_names_add(style, name, r);
        lemma_names_add(style, name, s);
        assert(r =~= (seq![name] + r).drop_first());
        assert(s =~= (seq![name] + s).drop_first());
    }
}

/// A way to a file consists of names, and starts with that of an entry.
pub proof fn lemma_way(style: Style, listing: Listing, n: nat, rel: Seq<Seq<char>>)
    requires
        is_tidy_first(style, listing, n),
        has_file_first(listing, n, rel),
    ensures
        rel.len() > 0,
        are_file_names(style, rel),
        exists|j: int|
            0 <= j < n && rel.first() == node_name(#[trigger] listing.entries@[j]),
    decreases listing, n,
{
    reveal_with_fuel(is_tidy_first, 2);
    reveal_with_fuel(has_file_first, 2);
    let node = listing.entries@[n - 1];
    if has_file_first(listing, (n - 1) as nat, rel) {
        lemma_way(style, listing, (n - 1) as nat, rel);
    } else {
        match node {
            Node::File { name, .. } => {
                assert(are_file_names(style, rel));
            },
            Node::Dir { name, listing: below } => {
                lemma_way(style, below, below.entries@.len(), rel.drop_first());
                lemma_names_add(style, name@, rel.drop_first());
                assert(seq![name@] + rel.drop_first() =~= rel);
            },
        }
        assert(rel.first() == node_name(listing.entries@[n - 1]));
    }
}

/// A merge of a tidy listing has no fault.
pub proof fn lemma_tidy_faultless(
    style: Style,
    src: Seq<char>,
    dst: Seq<char>,
    listing: Listing,
    n: nat,
)
    requires
        is_tidy_first(style, listing, n),
    ensures
        merging_first(style, src, dst, listing, n).fault is None,
    decreases listing, n,
{
    reveal_with_fuel(is_tidy_first, 2);
    reveal_with_fuel(merging_first, 2);
    if n > 0 {
        lemma_tidy_faultless(style, src, dst, listing, (n - 1) as nat);
        match listing.entries@[n - 1] {
            Node::File { .. } => {},
            Node::Dir { name, listing: below } => {
                lemma_tidy_faultless(
                    style,
                    joined(style, src, name@),
                    joined(style, dst, name@),
                    below,
                    below.entries@.len(),
                );
            },
        }
    }
}

/// Ways to files that start with different entries lead to different paths.
pub proof fn lemma_ways_differ(
    style: Style,
    base: Seq<char>,
    r: Seq<Seq<char>>,
    s: Seq<Seq<char>>,
)
    requires
        is_unambiguous(style, base),
        are_file_names(style, r),
        are_file_names(style, s),
        r.first() != s.first(),
    ensures
        joined_all(style, base, r) != joined_all(style, base, s),
{
}

/// A file that is clear of some entries is clear of fewer.
pub proof fn lemma_clear_before(
    style: Style,
    src: Seq<char>,
    dst: Seq<char>,
    listing: Listing,
    n: nat,
    rel: Seq<Seq<char>>,
)
    requires
        0 < n <= listing.entries@.len(),
        is_clear_first(style, src, dst, listing, n, rel),
    ensures
        is_clear_first(style, src, dst, listing, (n - 1) as nat, rel),
{
    assert forall|s: Seq<Seq<char>>| #[trigger]
        has_file_first(listing, (n - 1) as nat, s) implies joined_all(style, src, rel)
        != joined_all(style, dst, s) && joined_all(style, src, s) != joined_all(style, dst, rel) by {
        assert(has_file_first(listing, n, s));
    }
}

/// The files that lie behind the `n`-th entry.
spec fn has_file_at(listing: Listing, n: nat, rel: Seq<Seq<char>>) -> bool {
    match listing.entries@[n - 1] {
        Node::File { name, .. } => rel == seq![name@],
        Node::Dir { name, listing: below } => rel.len() > 1 && rel.first() == name@ && has_file(
            below,
            rel.drop_first(),
        ),
    }
}

/// The overlay of the first `n` entries, from that of those before the `n`-th
/// and from what the `n`-th entry does.
proof fn lemma_overlay_step(
    style: Style,
    src: Seq<char>,
    dst: Seq<char>,
    listing: Listing,
    n: nat,
    before: Files,
    middle: Files,
    new: Files,
)
    requires
        0 < n <= listing.entries@.len(),
        is_tidy_first(style, listing, n),
        is_unambiguous(style, src),
        is_unambiguous(style, dst),
        is_overlay_first(style, src, dst, listing, (n - 1) as nat, before, middle),
        forall|rel: Seq<Seq<char>>| #[trigger]
            has_file_at(listing, n, rel) ==> are_file_names(style, rel),
        forall|rel: Seq<Seq<char>>| #[trigger]
            has_file_at(listing, n, rel) && is_clear_first(style, src, dst, listing, n, rel)
                && middle.dom().contains(joined_all(style, src, rel)) ==> {
                &&& new.dom().contains(joined_all(style, dst, rel))
                &&& new[joined_all(style, dst, rel)] == middle[joined_all(style, src, rel)]
                &&& !new.dom().contains(joined_all(style, src, rel))
            },
        forall|path: Seq<char>|
            (forall|rel: Seq<Seq<char>>| #[trigger]
                has_file_at(listing, n, rel) ==> path != joined_all(style, src, rel) && path
                    != joined_all(style, dst, rel)) ==> #[trigger] same_at(middle, new, path),
    ensures
        is_overlay_first(style, src, dst, listing, n, before, new),
{
    let m = (n - 1) as nat;
    assert forall|rel: Seq<Seq<char>>| #[trigger]
        has_file_first(listing, n, rel) && is_clear_first(
            style,
            src,
            dst,
            listing,
            n,
            rel,
        ) && before.dom().contains(joined_all(style, src, rel)) implies {
        &&& new.dom().contains(joined_all(style, dst, rel))
        &&& new[joined_all(style, dst, rel)] == before[joined_all(style, src, rel)]
        &&& !new.dom().contains(joined_all(style, src, rel))
    } by {
        lemma_clear_before(style, src, dst, listing, n, rel);
        if has_file_first(listing, m, rel) {
            lemma_way(style, listing, m, rel);
            assert forall|other: Seq<Seq<char>>| #[trigger] has_file_at(listing, n, other) implies {
                &&& joined_all(style, dst, rel) != joined_all(style, src, other)
                &&& joined_all(style, dst, rel) != joined_all(style, dst, other)
                &&& joined_all(style, src, rel) != joined_all(style, src, other)
                &&& joined_all(style, src, rel) != joined_all(style, dst, other)
            } by {
                assert(has_file_first(listing, n, other));
                lemma_ways_differ(style, src, rel, other);
                lemma_ways_differ(style, dst, rel, other);
            }
            assert(same_at(middle, new, joined_all(style, dst, rel)));
            assert(same_at(middle, new, joined_all(style, src, rel)));
        } else {
            assert(has_file_at(listing, n, rel));
            lemma_untouched(style, src, dst, listing, n, rel);
            assert(same_at(before, middle, joined_all(style, src, rel)));
        }
    }
    assert forall|path: Seq<char>| #[trigger]
        is_other_path(style, src, dst, listing, n, path) implies same_at(before, new, path) by {
        assert(is_other_path(style, src, dst, listing, m, path)) by {
            assert forall|rel: Seq<Seq<char>>| #[trigger]
                has_file_first(listing, m, rel) implies path != joined_all(style, src, rel) && path
                != joined_all(style, dst, rel) by {
                assert(has_file_first(listing, n, rel));
            }
        }
        assert(same_at(before, middle, path));
        assert forall|rel: Seq<Seq<char>>| #[trigger] has_file_at(listing, n, rel) implies path
            != joined_all(style, src, rel) && path != joined_all(style, dst, rel) by {
            assert(has_file_first(listing, n, rel));
        }
        assert(same_at(middle, new, path));
    }
}

/// Where a clear file behind the `n`-th entry comes from, no entry before that
/// leads.
proof fn lemma_untouched(
    style: Style,
    src: Seq<char>,
    dst: Seq<char>,
    listing: Listing,
    n: nat,
    rel: Seq<Seq<char>>,
)
    requires
        0 < n <= listing.entries@.len(),
        is_tidy_first(style, listing, n),
        is_unambiguous(style, src),
        has_file_at(listing, n, rel),
        are_file_names(style, rel),
        is_clear_first(style, src, dst, listing, n, rel),
    ensures
        is_other_path(style, src, dst, listing, (n - 1) as nat, joined_all(style, src, rel)),
{
    let m = (n - 1) as nat;
    let from = joined_all(style, src, rel);
    assert forall|other: Seq<Seq<char>>| #[trigger] has_file_first(listing, m, other) implies from
        != joined_all(style, src, other) && from != joined_all(style, dst, other) by {
        lemma_way(style, listing, m, other);
        assert(has_file_first(listing, n, other));
        lemma_ways_differ(style, src, rel, other);
    }
}

/// Carrying out the merge of the first `n` entries overlays their files.
pub proof fn lemma_overlay(
    style: Style,
    src: Seq<char>,
    dst: Seq<char>,
    listing: Listing,
    n: nat,
    files: Files,
)
    requires
        n <= listing.entries@.len(),
        is_tidy_first(style, listing, n),
        is_unambiguous(style, src),
        is_unambiguous(style, dst),
    ensures
        is_overlay_first(
            style,
            src,
            dst,
            listing,
            n,
            files,
            after_all(files, merging_first(style, src, dst, listing, n).ops),
        ),
    decreases listing, n,
{
    reveal_with_fuel(is_tidy_first, 2);
    reveal_with_fuel(merging_first, 2);
    if n > 0 {
        let m = (n - 1) as nat;
        let node = listing.entries@[n - 1];
        let name = node_name(node);
        lemma_overlay(style, src, dst, listing, m, files);
        lemma_tidy_faultless(style, src, dst, listing, m);
        let first = merging_first(style, src, dst, listing, m).ops;
        let middle = after_all(files, first);
        let from = joined(style, src, name);
        let to = joined(style, dst, name);
        let one = seq![name];
        assert(are_file_names(style, one));
        assert(joined_all(style, src, one) == from && joined_all(style, dst, one) == to) by {
            lemma_joined_shift(style, src, name, seq![]);
            lemma_joined_shift(style, dst, name, seq![]);
            assert(seq![name] + Seq::<Seq<char>>::empty() =~= one);
        }
        match node {
            Node::File { replaces, .. } => {
                let ops = replacing(from, to, replaces);
                lemma_after_all_add(files, first, ops);
                let new = after_all(middle, ops);
                assert(has_file_at(listing, n, one));
                assert(has_file_first(listing, n, one));
                let moved: FileOpView = FileOp::Rename { from, to };
                let removed: FileOpView = FileOp::RemoveFile { path: to };
                assert(new == after(if replaces { after(middle, removed) } else { middle }, moved)) by {
                    assert(seq![moved].drop_last() =~= seq![]);
                    assert(seq![removed].drop_last() =~= seq![]);
                    assert(seq![removed, moved].drop_last() =~= seq![removed]);
                    reveal_with_fuel(after_all, 3);
                }
                if is_clear_first(style, src, dst, listing, n, one) {
                    assert(from != to);
                }
                lemma_overlay_step(style, src, dst, listing, n, files, middle, new);
            },
            Node::Dir { listing: below, .. } => {
                let make: Seq<FileOpView> = seq![FileOp::CreateDirAll { dir: to }];
                let inner = merging(style, from, to, below);
                let count = below.entries@.len();
                lemma_after_all_add(files, first, make);
                lemma_after_all_add(files, first + make, inner.ops);
                assert(after_all(middle, make) == middle) by {
                    assert(make.drop_last() =~= seq![]);
                    reveal_with_fuel(after_all, 2);
                }
                let new = after_all(middle, inner.ops);
                lemma_deeper(style, src, name);
                lemma_deeper(style, dst, name);
                assert forall|rel: Seq<Seq<char>>| #[trigger] has_file_first(below, count, rel) implies {
                    &&& has_file_at(listing, n, one + rel)
                    &&& are_file_names(style, one + rel)
                    &&& joined_all(style, from, rel) == joined_all(style, src, one + rel)
                    &&& joined_all(style, to, rel) == joined_all(style, dst, one + rel)
                } by {
                    lemma_way(style, below, count, rel);
                    lemma_names_add(style, name, rel);
                    assert((one + rel).drop_first() =~= rel);
                    lemma_joined_shift(style, src, name, rel);
                    lemma_joined_shift(style, dst, name, rel);
                }
                lemma_overlay(style, from, to, below, count, middle);
                lemma_tidy_faultless(style, from, to, below, count);
                assert(inner.ops =~= merging_first(style, from, to, below, count).ops);
                assert forall|rel: Seq<Seq<char>>| #[trigger]
                    has_file_at(listing, n, rel) implies are_file_names(style, rel) by {
                    assert(has_file_first(below, count, rel.drop_first()));
                    assert(one + rel.drop_first() =~= rel);
                }
                assert forall|rel: Seq<Seq<char>>| #[trigger]
                    has_file_at(listing, n, rel) && is_clear_first(style, src, dst, listing, n, rel)
                        && middle.dom().contains(joined_all(style, src, rel)) implies {
                    &&& new.dom().contains(joined_all(style, dst, rel))
                    &&& new[joined_all(style, dst, rel)] == middle[joined_all(style, src, rel)]
                    &&& !new.dom().contains(joined_all(style, src, rel))
                } by {
                    let rest = rel.drop_first();
                    assert(has_file_first(below, count, rest));
                    assert(one + rest =~= rel);
                    assert(is_clear_first(style, from, to, below, count, rest)) by {
                        assert forall|s: Seq<Seq<char>>| #[trigger]
                            has_file_first(below, count, s) implies joined_all(style, from, rest)
                            != joined_all(style, to, s) && joined_all(style, from, s)
                            != joined_all(style, to, rest) by {
                            assert(has_file_at(listing, n, one + s));
                            assert(has_file_first(listing, n, one + s));
                        }
                    }
                }
                assert forall|path: Seq<char>|
                    (forall|rel: Seq<Seq<char>>| #[trigger]
                        has_file_at(listing, n, rel) ==> path != joined_all(style, src, rel) && path
                            != joined_all(style, dst, rel)) implies #[trigger] same_at(
                    middle,
                    new,
                    path,
                ) by {
                    assert(is_other_path(style, from, to, below, count, path));
                }
                lemma_overlay_step(style, src, dst, listing, n, files, middle, new);
            },
        }
    }
}

/// Names with separators between them.
pub open spec fn chained(style: Style, rel: Seq<Seq<char>>) -> Seq<char>
    decreases rel.len(),
{
    if rel.len() == 0 {
        seq![]
    } else if rel.len() == 1 {
        rel[0]
    } else {
        chained(style, rel.drop_last()).push(main_separator(style)) + rel.last()
    }
}

proof fn lemma_names_drop_last(style: Style, rel: Seq<Seq<char>>)
    requires
        are_file_names(style, rel),
        rel.len() > 0,
    ensures
        are_file_names(style, rel.drop_last()),
{
    let init = rel.drop_last();
    assert forall|i: int| 0 <= i < init.len() implies is_file_name(style, #[trigger] init[i]) by {
        assert(init[i] == rel[i]);
    }
}

/// A path that ends in a name is followed by a separator.
pub proof fn lemma_opened_joined(style: Style, base: Seq<char>, name: Seq<char>)
    requires
        is_file_name(style, name),
    ensures
        opened(style, joined(style, base, name)) == joined(style, base, name).push(
            main_separator(style),
        ),
{
    let path = joined(style, base, name);
    assert(path.last() == name[name.len() - 1]);
    lemma_head(style, path);
    lemma_head(style, base);
    if style == Style::Windows {
        assert(!name.contains('\\'));
        if prefix_of(style, base).verbatim {
            lemma_opened_below_verbatim(base, name);
        } else if prefix_of(style, path).verbatim {
            lemma_opened_new_verbatim(base, name);
        }
    }
    if prefix_of(style, path).drive && path.len() == 2 {
        assert(path[1] == ':');
        if name.len() == 2 {
            assert(path =~= name);
        } else {
            assert(path[0] == base[0]);
            assert(is_separator(style, path[0]));
        }
    }
}

/// A path below `base` is `base`, ready for a name, and the names.
pub proof fn lemma_joined_chained(style: Style, base: Seq<char>, rel: Seq<Seq<char>>)
    requires
        are_file_names(style, rel),
        rel.len() > 0,
    ensures
        joined_all(style, base, rel) == opened(style, base) + chained(style, rel),
    decreases rel.len(),
{
    let init = rel.drop_last();
    lemma_names_drop_last(style, rel);
    if init.len() == 0 {
        assert(joined_all(style, base, init) == base);
    } else {
        lemma_joined_chained(style, base, init);
        let up = joined_all(style, base, init);
        assert(up == joined(style, joined_all(style, base, init.drop_last()), init.last()));
        assert(is_file_name(style, init[init.len() - 1]));
        lemma_opened_joined(style, joined_all(style, base, init.drop_last()), init.last());
        assert(joined_all(style, base, rel) =~= opened(style, base) + chained(style, rel));
    }
}

/// Chained names can be told from each other.
proof fn lemma_chained_injective(style: Style, r: Seq<Seq<char>>, s: Seq<Seq<char>>)
    requires
        are_file_names(style, r),
        are_file_names(style, s),
        r.len() > 0,
        s.len() > 0,
        chained(style, r) == chained(style, s),
    ensures
        r == s,
    decreases r.len(),
{
    let text = chained(style, r);
    let a = r.last();
    let b = s.last();
    let sep = main_separator(style);
    assert(is_separator(style, sep));
    assert(is_file_name(style, r[r.len() - 1]));
    assert(is_file_name(style, s[s.len() - 1]));
    // Behind the last separator stands the last name.
    assert(text.len() >= a.len() && text.len() >= b.len());
    assert forall|i: int| 0 <= i < a.len() implies text[text.len() - a.len() + i] == a[i] by {}
    assert forall|i: int| 0 <= i < b.len() implies text[text.len() - b.len() + i] == b[i] by {}
    if r.len() > 1 {
        assert(text[text.len() - a.len() - 1] == sep);
        if a.len() < b.len() {
            let i = b.len() - a.len() - 1;
            assert(b[i] == text[text.len() - b.len() + i]);
        }
    } else {
        assert(text == a);
    }
    if s.len() > 1 {
        assert(text[text.len() - b.len() - 1] == sep);
        if b.len() < a.len() {
            let i = a.len() - b.len() - 1;
            assert(a[i] == text[text.len() - a.len() + i]);
        }
    } else {
        assert(text == b);
    }
    assert(a.len() == b.len());
    assert(a =~= b) by {
        assert forall|i: int| 0 <= i < a.len() implies a[i] == b[i] by {
            assert(a[i] == text[text.len() - a.len() + i]);
        }
    }
    let x = r.drop_last();
    let y = s.drop_last();
    if r.len() > 1 && s.len() > 1 {
        let n = text.len() - a.len() - 1;
        assert(chained(style, x) =~= text.take(n));
        assert(chained(style, y) =~= text.take(n));
        lemma_names_drop_last(style, r);
        lemma_names_drop_last(style, s);
        lemma_chained_injective(style, x, y);
    }
    assert(r.len() == s.len());
    assert forall|i: int| 0 <= i < r.len() implies r[i] == s[i] by {
        if i < r.len() - 1 {
            assert(r[i] == x[i] && s[i] == y[i]);
        }
    }
    assert(r =~= s);
}

/// Different ways down from a directory lead to different paths.
pub proof fn lemma_unambiguous(style: Style, base: Seq<char>)
    ensures
        is_unambiguous(style, base),
{
    assert forall|r: Seq<Seq<char>>, s: Seq<Seq<char>>|
        are_file_names(style, r) && are_file_names(style, s) && #[trigger] joined_all(style, base, r)
            == #[trigger] joined_all(style, base, s) implies r == s by {
        if r.len() > 0 {
            lemma_joined_chained(style, base, r);
            lemma_chained_len(style, r);
        }
        if s.len() > 0 {
            lemma_joined_chained(style, base, s);
            lemma_chained_len(style, s);
        }
        if r.len() > 0 && s.len() > 0 {
            let n = opened(style, base).len() as int;
            let text = joined_all(style, base, r);
            assert(text.skip(n) =~= chained(style, r));
            assert(text.skip(n) =~= chained(style, s));
            lemma_chained_injective(style, r, s);
        } else if r.len() > 0 {
            lemma_base_is_not_below(style, base, chained(style, r));
        } else if s.len() > 0 {
            lemma_base_is_not_below(style, base, chained(style, s));
        } else {
            assert(r =~= s);
        }
    }
}

proof fn lemma_chained_len(style: Style, rel: Seq<Seq<char>>)
    requires
        are_file_names(style, rel),
        rel.len() > 0,
    ensures
        chained(style, rel).len() > 0,
        !is_separator(style, chained(style, rel)[0]),
    decreases rel.len(),
{
    assert(is_file_name(style, rel[rel.len() - 1]));
    if rel.len() > 1 {
        lemma_names_drop_last(style, rel);
        lemma_chained_len(style, rel.drop_last());
    }
}

/// Neither directory is the other one or lies in it, by their paths.
pub open spec fn is_elsewhere(style: Style, src: Seq<char>, dst: Seq<char>) -> bool {
    !opened(style, src).is_prefix_of(opened(style, dst)) && !opened(style, dst).is_prefix_of(
        opened(style, src),
    )
}

/// No way down from one directory leads where a way down from the other leads,
/// where neither lies in the other.
pub proof fn lemma_elsewhere(
    style: Style,
    src: Seq<char>,
    dst: Seq<char>,
    r: Seq<Seq<char>>,
    s: Seq<Seq<char>>,
)
    requires
        is_elsewhere(style, src, dst),
        r.len() > 0,
        s.len() > 0,
        are_file_names(style, r),
        are_file_names(style, s),
    ensures
        joined_all(style, src, r) != joined_all(style, dst, s),
{
    let a = opened(style, src);
    let b = opened(style, dst);
    lemma_joined_chained(style, src, r);
    lemma_joined_chained(style, dst, s);
    let x = joined_all(style, src, r);
    let y = joined_all(style, dst, s);
    if x == y {
        assert(x.take(a.len() as int) =~= a);
        assert(y.take(b.len() as int) =~= b);
        if a.len() <= b.len() {
            assert(b.subrange(0, a.len() as int) =~= x.take(a.len() as int));
        } else {
            assert(a.subrange(0, b.len() as int) =~= x.take(b.len() as int));
        }
    }
}

/// The files of a tree are clear, where neither directory lies in the other.
pub proof fn law_elsewhere_is_clear(
    style: Style,
    src: Seq<char>,
    dst: Seq<char>,
    listing: Listing,
    rel: Seq<Seq<char>>,
)
    requires
        is_tidy(style, listing),
        is_elsewhere(style, src, dst),
        has_file(listing, rel),
    ensures
        is_clear(style, src, dst, listing, rel),
{
    let count = listing.entries@.len();
    lemma_way(style, listing, count, rel);
    assert forall|s: Seq<Seq<char>>| #[trigger] has_file(listing, s) implies joined_all(
        style,
        src,
        rel,
    ) != joined_all(style, dst, s) && joined_all(style, src, s) != joined_all(style, dst, rel) by {
        lemma_way(style, listing, count, s);
        lemma_elsewhere(style, src, dst, rel, s);
        lemma_elsewhere(style, src, dst, s, rel);
    }
}

/// Moving a staged tree over a directory puts every staged file that is clear at
/// its place there, with its contents, in the place of what was there before, and
/// leaves every file as it was that is neither staged nor in such a place.
pub proof fn law_merge_overlays(
    style: Style,
    src: Seq<char>,
    dst: Seq<char>,
    listing: Listing,
    files: Files,
)
    requires
        is_tidy(style, listing),
    ensures
        merging(style, src, dst, listing).fault is None,
        ({
            let new = after_all(files, merging(style, src, dst, listing).ops);
            &&& forall|rel: Seq<Seq<char>>| #[trigger]
                has_file(listing, rel) && is_clear(style, src, dst, listing, rel)
                    && files.dom().contains(joined_all(style, src, rel)) ==> {
                    &&& new.dom().contains(joined_all(style, dst, rel))
                    &&& new[joined_all(style, dst, rel)] == files[joined_all(style, src, rel)]
                    &&& !new.dom().contains(joined_all(style, src, rel))
                }
            &&& forall|path: Seq<char>|
                (forall|rel: Seq<Seq<char>>| #[trigger]
                    has_file(listing, rel) ==> path != joined_all(style, src, rel) && path
                        != joined_all(style, dst, rel)) ==> #[trigger] same_at(files, new, path)
        }),
{
    let count = listing.entries@.len();
    lemma_unambiguous(style, src);
    lemma_unambiguous(style, dst);
    lemma_overlay(style, src, dst, listing, count, files);
    lemma_tidy_faultless(style, src, dst, listing, count);
    let plan = merging(style, src, dst, listing);
    assert(plan.ops =~= merging_first(style, src, dst, listing, count).ops);
    let new = after_all(files, plan.ops);
    assert forall|rel: Seq<Seq<char>>| #[trigger]
        has_file(listing, rel) && is_clear(style, src, dst, listing, rel) implies has_file_first(
        listing,
        count,
        rel,
    ) && is_clear_first(style, src, dst, listing, count, rel) by {
        assert forall|s: Seq<Seq<char>>| #[trigger]
            has_file_first(listing, count, s) implies joined_all(style, src, rel) != joined_all(
            style,
            dst,
            s,
        ) && joined_all(style, src, s) != joined_all(style, dst, rel) by {
            assert(has_file(listing, s));
        }
    }
    assert forall|path: Seq<char>|
        (forall|rel: Seq<Seq<char>>| #[trigger]
            has_file(listing, rel) ==> path != joined_all(style, src, rel) && path != joined_all(
                style,
                dst,
                rel,
            )) implies #[trigger] same_at(files, new, path) by {
        assert(is_other_path(style, src, dst, listing, count, path)) by {
            assert forall|rel: Seq<Seq<char>>| #[trigger]
                has_file_first(listing, count, rel) implies path != joined_all(style, src, rel)
                && path != joined_all(style, dst, rel) by {
                assert(has_file(listing, rel));
            }
        }
    }
}

/// The file that a package has at `rel`: the contents are those of the last entry
/// for it, and the permission bits those of the last such entry that has any.
pub open spec fn package_file(
    platform: Platform,
    entries: Seq<Result<EntryView, Seq<char>>>,
    rel: Seq<Seq<char>>,
) -> Option<FileState>
    decreases entries.len(),
{
    if entries.len() == 0 {
        None
    } else {
        let before = package_file(platform, entries.drop_last(), rel);
        match entries.last() {
            Ok(entry) => if rel.len() > 0 && entry.path == rel && !entry.is_dir
                && entry.stored.data is Ok {
                let mode = if keeps_modes(platform) && entry.stored.mode is Some {
                    entry.stored.mode
                } else if let Some(file) = before {
                    file.mode
                } else {
                    None
                };
                Some(FileState { data: entry.stored.data->Ok_0, mode })
            } else {
                before
            },
            Err(_) => before,
        }
    }
}

/// No directory of the package is at `rel`.
pub open spec fn no_dir_at(
    entries: Seq<Result<EntryView, Seq<char>>>,
    rel: Seq<Seq<char>>,
) -> bool {
    forall|i: int|
        0 <= i < entries.len() && (#[trigger] entries[i]) is Ok && entries[i]->Ok_0.is_dir
            ==> entries[i]->Ok_0.path != rel
}

/// Every entry that could be read has a path of names.
pub open spec fn paths_are_names(
    style: Style,
    entries: Seq<Result<EntryView, Seq<char>>>,
) -> bool {
    forall|i: int|
        0 <= i < entries.len() && (#[trigger] entries[i]) is Ok ==> are_file_names(
            style,
            entries[i]->Ok_0.path,
        )
}

/// A package that can be extracted has entries with paths of names only.
pub proof fn lemma_extracted_names(
    platform: Platform,
    staging: Seq<char>,
    entries: Seq<Result<EntryView, Seq<char>>>,
)
    requires
        laying_out(platform, staging, entries).fault is None,
    ensures
        paths_are_names(platform.path_style(), entries),
    decreases entries.len(),
{
    if entries.len() > 0 {
        let init = entries.drop_last();
        assert(laying_out(platform, staging, init).fault is None);
        lemma_extracted_names(platform, staging, init);
        assert forall|i: int| 0 <= i < entries.len() && (#[trigger] entries[i]) is Ok implies are_file_names(
            platform.path_style(),
            entries[i]->Ok_0.path,
        ) by {
            if i < init.len() {
                assert(init[i] == entries[i]);
            }
        }
    }
}

/// A way that the package has a file for consists of names.
pub proof fn lemma_package_way(
    platform: Platform,
    entries: Seq<Result<EntryView, Seq<char>>>,
    rel: Seq<Seq<char>>,
)
    requires
        paths_are_names(platform.path_style(), entries),
        package_file(platform, entries, rel) is Some,
    ensures
        rel.len() > 0,
        are_file_names(platform.path_style(), rel),
    decreases entries.len(),
{
    let init = entries.drop_last();
    let last = entries[entries.len() - 1];
    let is_last = last is Ok && last->Ok_0.path == rel && rel.len() > 0 && !last->Ok_0.is_dir
        && last->Ok_0.stored.data is Ok;
    if !is_last {
        lemma_names_init(platform.path_style(), entries);
        lemma_package_way(platform, init, rel);
    }
}

proof fn lemma_names_init(style: Style, entries: Seq<Result<EntryView, Seq<char>>>)
    requires
        paths_are_names(style, entries),
        entries.len() > 0,
    ensures
        paths_are_names(style, entries.drop_last()),
{
    let init = entries.drop_last();
    assert forall|i: int| 0 <= i < init.len() && (#[trigger] init[i]) is Ok implies are_file_names(
        style,
        init[i]->Ok_0.path,
    ) by {
        assert(init[i] == entries[i]);
    }
}

/// `path` is not that of a file of the package below `base`.
pub open spec fn is_not_of_package(
    platform: Platform,
    base: Seq<char>,
    entries: Seq<Result<EntryView, Seq<char>>>,
    path: Seq<char>,
) -> bool {
    forall|rel: Seq<Seq<char>>|
        (#[trigger] package_file(platform, entries, rel)) is Some ==> path != joined_all(
            platform.path_style(),
            base,
            rel,
        )
}

/// There are no files below a directory.
pub open spec fn is_empty_below(style: Style, base: Seq<char>, files: Files) -> bool {
    forall|rel: Seq<Seq<char>>|
        rel.len() > 0 && are_file_names(style, rel) ==> !files.dom().contains(
            #[trigger] joined_all(style, base, rel),
        )
}

/// Laying a package out below an empty directory writes its files there, and
/// changes nothing else.
pub proof fn lemma_laid_out_writes(
    platform: Platform,
    staging: Seq<char>,
    entries: Seq<Result<EntryView, Seq<char>>>,
    files: Files,
)
    requires
        paths_are_names(platform.path_style(), entries),
        laying_out(platform, staging, entries).fault is None,
        is_empty_below(platform.path_style(), staging, files),
    ensures
        ({
            let style = platform.path_style();
            let new = after_all(files, laying_out(platform, staging, entries).ops);
            &&& forall|rel: Seq<Seq<char>>|
                (#[trigger] package_file(platform, entries, rel)) is Some ==> {
                    &&& new.dom().contains(joined_all(style, staging, rel))
                    &&& new[joined_all(style, staging, rel)] == package_file(
                        platform,
                        entries,
                        rel,
                    )->0
                }
            &&& forall|path: Seq<char>| #[trigger]
                is_not_of_package(platform, staging, entries, path) ==> same_at(files, new, path)
        }),
    decreases entries.len(),
{
    let style = platform.path_style();
    let plan = laying_out(platform, staging, entries);
    let new = after_all(files, plan.ops);
    if entries.len() > 0 {
        let init = entries.drop_last();
        let last = entries[entries.len() - 1];
        let before = laying_out(platform, staging, init);
        assert(before.fault is None);
        assert(last is Ok);
        let entry = last->Ok_0;
        lemma_names_init(style, entries);
        lemma_laid_out_writes(platform, staging, init, files);
        let middle = after_all(files, before.ops);
        let own = entry_ops(platform, staging, entry);
        lemma_after_all_add(files, before.ops, own);
        assert(new == after_all(middle, own));
        let out = joined_all(style, staging, entry.path);
        let is_file = entry.path.len() > 0 && !entry.is_dir;
        assert(are_file_names(style, entry.path));
        lemma_entry_effect(platform, staging, entry, middle);
        lemma_unambiguous(style, staging);
        if is_file && package_file(platform, init, entry.path) is None {
            assert(is_not_of_package(platform, staging, init, out)) by {
                assert forall|rel: Seq<Seq<char>>|
                    (#[trigger] package_file(platform, init, rel)) is Some implies out
                    != joined_all(style, staging, rel) by {
                    lemma_package_way(platform, init, rel);
                }
            }
            assert(same_at(files, middle, out));
        }
        assert forall|rel: Seq<Seq<char>>|
            (#[trigger] package_file(platform, entries, rel)) is Some implies {
            &&& new.dom().contains(joined_all(style, staging, rel))
            &&& new[joined_all(style, staging, rel)] == package_file(platform, entries, rel)->0
        } by {
            lemma_package_way(platform, entries, rel);
            if is_file && rel == entry.path {
            } else {
                assert(package_file(platform, init, rel) == package_file(platform, entries, rel));
                if is_file {
                    assert(joined_all(style, staging, rel) != out);
                }
            }
        }
        assert forall|path: Seq<char>| #[trigger]
            is_not_of_package(platform, staging, entries, path) implies same_at(files, new, path) by {
            if is_file {
                assert(package_file(platform, entries, entry.path) is Some);
                assert(path != out);
            }
            assert(is_not_of_package(platform, staging, init, path)) by {
                assert forall|rel: Seq<Seq<char>>|
                    (#[trigger] package_file(platform, init, rel)) is Some implies path
                    != joined_all(style, staging, rel) by {
                    assert(package_file(platform, entries, rel) is Some);
                }
            }
            assert(same_at(files, middle, path));
        }
    }
}

/// What extracting one entry does: where it is a file, its contents are written,
/// and its permission bits set.
proof fn lemma_entry_effect(
    platform: Platform,
    staging: Seq<char>,
    entry: EntryView,
    files: Files,
)
    requires
        !is_rejected(platform.path_style(), entry),
        entry.path.len() > 0 && !entry.is_dir ==> entry.stored.data is Ok,
    ensures
        ({
            let out = joined_all(platform.path_style(), staging, entry.path);
            let mode = if keeps_modes(platform) && entry.stored.mode is Some {
                entry.stored.mode
            } else {
                mode_at(files, out)
            };
            after_all(files, entry_ops(platform, staging, entry)) == if entry.path.len() > 0
                && !entry.is_dir {
                files.insert(out, FileState { data: entry.stored.data->Ok_0, mode })
            } else {
                files
            }
        }),
{
    let ops = entry_ops(platform, staging, entry);
    let out = joined_all(platform.path_style(), staging, entry.path);
    reveal_with_fuel(after_all, 4);
    if ops.len() == 1 {
        assert(ops.drop_last() =~= seq![]);
    } else if ops.len() == 2 {
        assert(ops.drop_last() =~= seq![ops[0]]);
        assert(seq![ops[0]].drop_last() =~= seq![]);
    } else if ops.len() == 3 {
        assert(ops.drop_last() =~= seq![ops[0], ops[1]]);
        assert(seq![ops[0], ops[1]].drop_last() =~= seq![ops[0]]);
        assert(seq![ops[0]].drop_last() =~= seq![]);
        let written = FileState { data: entry.stored.data->Ok_0, mode: mode_at(files, out) };
        let done = FileState { data: entry.stored.data->Ok_0, mode: entry.stored.mode };
        assert(files.insert(out, written).insert(out, done) =~= files.insert(out, done));
    }
}

/// One of the operations sets the permission bits at a path.
pub open spec fn sets_mode_at(ops: Seq<FileOpView>, path: Seq<char>) -> bool {
    exists|i: int|
        0 <= i < ops.len() && (#[trigger] ops[i]) is SetMode && ops[i]->SetMode_path == path
}

/// The same contents, or no file, at a path.
pub open spec fn same_data_at(a: Files, b: Files, path: Seq<char>) -> bool {
    a.dom().contains(path) == b.dom().contains(path) && (a.dom().contains(path) ==> a[path].data
        == b[path].data)
}

/// Setting permission bits keeps all contents, and changes no other file.
proof fn lemma_modes_only(ops: Seq<FileOpView>, files: Files)
    requires
        forall|i: int| 0 <= i < ops.len() ==> (#[trigger] ops[i]) is SetMode,
    ensures
        forall|path: Seq<char>| #[trigger] same_data_at(files, after_all(files, ops), path),
        forall|path: Seq<char>|
            !sets_mode_at(ops, path) ==> #[trigger] same_at(files, after_all(files, ops), path),
    decreases ops.len(),
{
    if ops.len() > 0 {
        let init = ops.drop_last();
        let last = ops[ops.len() - 1];
        assert forall|i: int| 0 <= i < init.len() implies (#[trigger] init[i]) is SetMode by {
            assert(init[i] == ops[i]);
        }
        lemma_modes_only(init, files);
        let middle = after_all(files, init);
        assert forall|path: Seq<char>| #[trigger]
            same_data_at(files, after_all(files, ops), path) by {
            assert(same_data_at(files, middle, path));
        }
        assert forall|path: Seq<char>| !sets_mode_at(ops, path) implies #[trigger] same_at(
            files,
            after_all(files, ops),
            path,
        ) by {
            assert(!sets_mode_at(init, path)) by {
                if sets_mode_at(init, path) {
                    let i = choose|i: int|
                        0 <= i < init.len() && (#[trigger] init[i]) is SetMode
                            && init[i]->SetMode_path == path;
                    assert(ops[i] == init[i]);
                }
            }
            assert(same_at(files, middle, path));
            assert(last->SetMode_path != path);
        }
    }
}

/// The permission bits of a directory are those of an entry for it.
pub proof fn lemma_dir_mode_of(
    platform: Platform,
    staging: Seq<char>,
    entries: Seq<Result<EntryView, Seq<char>>>,
    k: int,
) -> (i: int)
    requires
        0 <= k < dir_modes(platform, staging, entries).len(),
    ensures
        0 <= i < entries.len(),
        entries[i] is Ok,
        entries[i]->Ok_0.is_dir,
        entries[i]->Ok_0.path.len() > 0,
        are_file_names(platform.path_style(), entries[i]->Ok_0.path),
        dir_modes(platform, staging, entries)[k] is SetMode,
        dir_modes(platform, staging, entries)[k]->SetMode_path == joined_all(
            platform.path_style(),
            staging,
            entries[i]->Ok_0.path,
        ),
    decreases entries.len(),
{
    let init = entries.drop_last();
    let before = dir_modes(platform, staging, init);
    if k < before.len() {
        let i = lemma_dir_mode_of(platform, staging, init, k);
        assert(init[i] == entries[i]);
        i
    } else {
        let own = read_modes(platform, staging, entries.last());
        assert(dir_modes(platform, staging, entries)[k] == own[k - before.len()]);
        entries.len() - 1
    }
}

/// Extracting a package below an empty directory leaves exactly the files of the
/// package there, with their contents and permission bits, and changes nothing
/// else. A directory at the same path as a file would change that file's bits.
pub proof fn law_extraction_writes(
    platform: Platform,
    staging: Seq<char>,
    entries: Seq<Result<EntryView, Seq<char>>>,
    files: Files,
)
    requires
        extraction(platform, staging, entries).fault is None,
        is_empty_below(platform.path_style(), staging, files),
    ensures
        ({
            let style = platform.path_style();
            let new = after_all(files, extraction(platform, staging, entries).ops);
            &&& forall|rel: Seq<Seq<char>>|
                (#[trigger] package_file(platform, entries, rel)) is Some ==> {
                    let path = joined_all(style, staging, rel);
                    let file = package_file(platform, entries, rel)->0;
                    &&& new.dom().contains(path)
                    &&& new[path].data == file.data
                    &&& no_dir_at(entries, rel) ==> new[path] == file
                }
            &&& forall|path: Seq<char>| #[trigger]
                is_not_of_package(platform, staging, entries, path) ==> same_at(files, new, path)
        }),
{
    let style = platform.path_style();
    let laid_out = laying_out(platform, staging, entries).ops;
    let modes = dir_modes(platform, staging, entries);
    let last = modes.reverse();
    lemma_extracted_names(platform, staging, entries);
    lemma_laid_out_writes(platform, staging, entries, files);
    lemma_after_all_add(files, laid_out, last);
    let middle = after_all(files, laid_out);
    let new = after_all(middle, last);
    assert forall|i: int| 0 <= i < last.len() implies (#[trigger] last[i]) is SetMode by {
        let k = lemma_dir_mode_of(platform, staging, entries, modes.len() - 1 - i);
    }
    lemma_modes_only(last, middle);
    lemma_unambiguous(style, staging);
    assert forall|rel: Seq<Seq<char>>|
        (#[trigger] package_file(platform, entries, rel)) is Some implies {
        let path = joined_all(style, staging, rel);
        let file = package_file(platform, entries, rel)->0;
        &&& new.dom().contains(path)
        &&& new[path].data == file.data
        &&& no_dir_at(entries, rel) ==> new[path] == file
    } by {
        let path = joined_all(style, staging, rel);
        lemma_package_way(platform, entries, rel);
        assert(same_data_at(middle, new, path));
        if no_dir_at(entries, rel) {
            if sets_mode_at(last, path) {
                let i = choose|i: int|
                    0 <= i < last.len() && (#[trigger] last[i]) is SetMode
                        && last[i]->SetMode_path == path;
                let k = lemma_dir_mode_of(platform, staging, entries, modes.len() - 1 - i);
                assert(entries[k]->Ok_0.path == rel);
            }
            assert(same_at(middle, new, path));
        }
    }
    assert forall|path: Seq<char>| #[trigger]
        is_not_of_package(platform, staging, entries, path) implies same_at(files, new, path) by {
        assert(same_at(files, middle, path));
        if sets_mode_at(last, path) {
            let i = choose|i: int|
                0 <= i < last.len() && (#[trigger] last[i]) is SetMode && last[i]->SetMode_path
                    == path;
            let k = lemma_dir_mode_of(platform, staging, entries, modes.len() - 1 - i);
            assert(!files.dom().contains(path));
            assert(same_data_at(middle, new, path));
        } else {
            assert(same_at(middle, new, path));
        }
    }
}

/// The listing of a directory tells of exactly the files that lie below it.
pub open spec fn tells_all(
    style: Style,
    base: Seq<char>,
    listing: Listing,
    files: Files,
) -> bool {
    forall|rel: Seq<Seq<char>>|
        rel.len() > 0 && are_file_names(style, rel) ==> (#[trigger] has_file(listing, rel)
            <==> files.dom().contains(joined_all(style, base, rel)))
}

/// The file of the package at `rel` is not staged where one of its files goes to,
/// nor does it go to where one of them is staged.
pub open spec fn is_clear_way(
    platform: Platform,
    staging: Seq<char>,
    target: Seq<char>,
    entries: Seq<Result<EntryView, Seq<char>>>,
    rel: Seq<Seq<char>>,
) -> bool {
    forall|s: Seq<Seq<char>>|
        (#[trigger] package_file(platform, entries, s)) is Some ==> {
            &&& joined_all(platform.path_style(), staging, rel) != joined_all(
                platform.path_style(),
                target,
                s,
            )
            &&& joined_all(platform.path_style(), staging, s) != joined_all(
                platform.path_style(),
                target,
                rel,
            )
        }
}

/// The files once a package has been extracted.
pub open spec fn unpacked(
    platform: Platform,
    staging: Seq<char>,
    entries: Seq<Result<EntryView, Seq<char>>>,
    files: Files,
) -> Files {
    after_all(files, laying_out(platform, staging, entries).ops)
}

/// The files once a package has been extracted, and what is then in the staging
/// directory has been moved into the target.
pub open spec fn updated(
    platform: Platform,
    target: Seq<char>,
    tag: Seq<char>,
    entries: Seq<Result<EntryView, Seq<char>>>,
    files: Files,
    listing: Listing,
) -> Files {
    let style = platform.path_style();
    let staging = staging_of(style, target, tag);
    after_all(
        unpacked(platform, staging, entries, files),
        merging(style, staging, target, listing).ops,
    )
}

/// The package can be extracted, and the staging directory is then listed
/// truthfully.
pub open spec fn is_listed(
    platform: Platform,
    target: Seq<char>,
    tag: Seq<char>,
    entries: Seq<Result<EntryView, Seq<char>>>,
    files: Files,
    listing: Listing,
) -> bool {
    let style = platform.path_style();
    let staging = staging_of(style, target, tag);
    &&& laying_out(platform, staging, entries).fault is None
    &&& is_tidy(style, listing)
    &&& tells_all(style, staging, listing, unpacked(platform, staging, entries, files))
}

/// Every file of a package is clear where the target has a parent. Where it has
/// none, being a root, a file is clear that does not lie in a directory of the
/// staging directory's name, unless the package has the same file once more in a
/// directory of that name.
pub proof fn law_ways_are_clear(
    platform: Platform,
    target: Seq<char>,
    tag: Seq<char>,
    entries: Seq<Result<EntryView, Seq<char>>>,
    rel: Seq<Seq<char>>,
)
    requires
        is_solid(platform.path_style(), tag),
        paths_are_names(platform.path_style(), entries),
        package_file(platform, entries, rel) is Some,
        ({
            let own = staging_name(tag, name_of(platform.path_style(), target));
            parent_of(platform.path_style(), target) is None ==> rel.first() != own
                && package_file(platform, entries, seq![own] + rel) is None
        }),
    ensures
        is_clear_way(
            platform,
            staging_of(platform.path_style(), target, tag),
            target,
            entries,
            rel,
        ),
{
    let style = platform.path_style();
    let staging = staging_of(style, target, tag);
    let own = staging_name(tag, name_of(style, target));
    lemma_package_way(platform, entries, rel);
    if parent_of(style, target) is Some {
        law_staging_apart(style, target, tag);
    } else {
        lemma_rootless_name(style, target);
        lemma_staging_name(style, tag);
        lemma_unambiguous(style, target);
    }
    assert forall|s: Seq<Seq<char>>|
        (#[trigger] package_file(platform, entries, s)) is Some implies joined_all(
        style,
        staging,
        rel,
    ) != joined_all(style, target, s) && joined_all(style, staging, s) != joined_all(
        style,
        target,
        rel,
    ) by {
        lemma_package_way(platform, entries, s);
        if parent_of(style, target) is Some {
            lemma_elsewhere(style, staging, target, rel, s);
            lemma_elsewhere(style, staging, target, s, rel);
        } else {
            lemma_joined_shift(style, target, own, rel);
            lemma_joined_shift(style, target, own, s);
            lemma_names_add(style, own, rel);
            lemma_names_add(style, own, s);
            assert((seq![own] + s).first() == own);
        }
    }
}

/// Updating a directory, from the package to the last move: where the staging
/// directory starts out empty and is listed truthfully once the package is
/// extracted, every file of the package that is clear ends up at its place in the
/// target with its contents and permission bits, and is gone from the staging
/// directory, and every file that is neither of the package nor in the staging
/// directory is as it was before. Where the target has a parent, every file is
/// clear.
pub proof fn law_update_overlays(
    platform: Platform,
    target: Seq<char>,
    tag: Seq<char>,
    entries: Seq<Result<EntryView, Seq<char>>>,
    files: Files,
    listing: Listing,
)
    requires
        is_solid(platform.path_style(), tag),
        is_empty_below(
            platform.path_style(),
            staging_of(platform.path_style(), target, tag),
            files,
        ),
        is_listed(platform, target, tag, entries, files, listing),
    ensures
        ({
            let style = platform.path_style();
            let staging = staging_of(style, target, tag);
            let new = updated(platform, target, tag, entries, files, listing);
            &&& forall|rel: Seq<Seq<char>>|
                (#[trigger] package_file(platform, entries, rel)) is Some && (parent_of(
                    style,
                    target,
                ) is Some || is_clear_way(platform, staging, target, entries, rel)) ==> {
                    let path = joined_all(style, target, rel);
                    &&& new.dom().contains(path)
                    &&& new[path] == package_file(platform, entries, rel)->0
                    &&& !new.dom().contains(joined_all(style, staging, rel))
                }
            &&& forall|path: Seq<char>|
                is_not_of_package(platform, staging, entries, path) && is_not_of_package(
                    platform,
                    target,
                    entries,
                    path,
                ) ==> #[trigger] same_at(files, new, path)
        }),
{
    let style = platform.path_style();
    let staging = staging_of(style, target, tag);
    let full = unpacked(platform, staging, entries, files);
    let new = updated(platform, target, tag, entries, files, listing);
    let count = listing.entries@.len();
    lemma_extracted_names(platform, staging, entries);
    lemma_laid_out_writes(platform, staging, entries, files);
    lemma_unambiguous(style, staging);
    // The listing and the package name the same files.
    assert forall|rel: Seq<Seq<char>>| #[trigger] has_file(listing, rel) implies package_file(
        platform,
        entries,
        rel,
    ) is Some by {
        assert(has_file_first(listing, count, rel));
        lemma_way(style, listing, count, rel);
        let path = joined_all(style, staging, rel);
        assert(full.dom().contains(path));
        if package_file(platform, entries, rel) is None {
            assert(is_not_of_package(platform, staging, entries, path)) by {
                assert forall|other: Seq<Seq<char>>|
                    (#[trigger] package_file(platform, entries, other)) is Some implies path
                    != joined_all(style, staging, other) by {
                    lemma_package_way(platform, entries, other);
                }
            }
            assert(same_at(files, full, path));
        }
    }
    assert forall|rel: Seq<Seq<char>>|
        (#[trigger] package_file(platform, entries, rel)) is Some implies has_file(listing, rel) by {
        lemma_package_way(platform, entries, rel);
    }
    law_merge_overlays(style, staging, target, listing, full);
    assert forall|rel: Seq<Seq<char>>|
        (#[trigger] package_file(platform, entries, rel)) is Some && (parent_of(
            style,
            target,
        ) is Some || is_clear_way(platform, staging, target, entries, rel)) implies {
        let path = joined_all(style, target, rel);
        &&& new.dom().contains(path)
        &&& new[path] == package_file(platform, entries, rel)->0
        &&& !new.dom().contains(joined_all(style, staging, rel))
    } by {
        if parent_of(style, target) is Some {
            law_ways_are_clear(platform, target, tag, entries, rel);
        }
        assert(has_file(listing, rel));
        assert(is_clear(style, staging, target, listing, rel)) by {
            assert forall|s: Seq<Seq<char>>| #[trigger] has_file(listing, s) implies joined_all(
                style,
                staging,
                rel,
            ) != joined_all(style, target, s) && joined_all(style, staging, s) != joined_all(
                style,
                target,
                rel,
            ) by {
                assert(package_file(platform, entries, s) is Some);
            }
        }
    }
    assert forall|path: Seq<char>|
        is_not_of_package(platform, staging, entries, path) && is_not_of_package(
            platform,
            target,
            entries,
            path,
        ) implies #[trigger] same_at(files, new, path) by {
        assert(same_at(files, full, path));
        assert(same_at(full, new, path));
    }
}

/// The files once a directory has been discarded with all that lies below it.
pub open spec fn discarded(style: Style, files: Files, tree: Seq<char>) -> Files {
    files.remove_keys(files.dom().filter(|path: Seq<char>| lies_below(style, tree, path)))
}

/// `path` is not where a file of the package goes to that is not clear.
pub open spec fn is_clear_place(
    platform: Platform,
    staging: Seq<char>,
    target: Seq<char>,
    entries: Seq<Result<EntryView, Seq<char>>>,
    path: Seq<char>,
) -> bool {
    forall|rel: Seq<Seq<char>>|
        (#[trigger] package_file(platform, entries, rel)) is Some && path == joined_all(
            platform.path_style(),
            target,
            rel,
        ) ==> is_clear_way(platform, staging, target, entries, rel)
}

/// Updating a directory twice with the same package gives the same files,
/// whatever was left in the staging directory in between: leftovers are discarded
/// before the package is extracted again, and never reach the target. Where the
/// target is a root, this holds of all places but those of files that are not
/// clear: which file ends up there is a matter of the order of the listing.
pub proof fn law_update_twice(
    platform: Platform,
    target: Seq<char>,
    tag: Seq<char>,
    entries: Seq<Result<EntryView, Seq<char>>>,
    files: Files,
    listing: Listing,
    between: Files,
    again: Listing,
)
    requires
        is_solid(platform.path_style(), tag),
        ({
            let style = platform.path_style();
            let staging = staging_of(style, target, tag);
            let once = updated(platform, target, tag, entries, files, listing);
            &&& is_empty_below(style, staging, files)
            &&& is_listed(platform, target, tag, entries, files, listing)
            &&& forall|path: Seq<char>|
                !lies_below(style, staging, path) ==> #[trigger] same_at(once, between, path)
            &&& is_listed(
                platform,
                target,
                tag,
                entries,
                discarded(style, between, staging),
                again,
            )
        }),
    ensures
        ({
            let style = platform.path_style();
            let staging = staging_of(style, target, tag);
            let once = updated(platform, target, tag, entries, files, listing);
            let start = discarded(style, between, staging);
            let twice = updated(platform, target, tag, entries, start, again);
            forall|path: Seq<char>|
                !lies_below(style, staging, path) && (parent_of(style, target) is Some
                    || is_clear_place(platform, staging, target, entries, path))
                    ==> #[trigger] same_at(once, twice, path)
        }),
{
    let style = platform.path_style();
    let staging = staging_of(style, target, tag);
    let once = updated(platform, target, tag, entries, files, listing);
    let start = discarded(style, between, staging);
    let twice = updated(platform, target, tag, entries, start, again);
    assert(is_empty_below(style, staging, start)) by {
        assert forall|rel: Seq<Seq<char>>|
            rel.len() > 0 && are_file_names(style, rel) implies !start.dom().contains(
            #[trigger] joined_all(style, staging, rel),
        ) by {
            assert(lies_below(style, staging, joined_all(style, staging, rel)));
        }
    }
    law_update_overlays(platform, target, tag, entries, files, listing);
    law_update_overlays(platform, target, tag, entries, start, again);
    lemma_extracted_names(platform, staging, entries);
    assert forall|path: Seq<char>|
        !lies_below(style, staging, path) && (parent_of(style, target) is Some || is_clear_place(
            platform,
            staging,
            target,
            entries,
            path,
        )) implies #[trigger] same_at(once, twice, path) by {
        assert(is_not_of_package(platform, staging, entries, path)) by {
            assert forall|rel: Seq<Seq<char>>|
                (#[trigger] package_file(platform, entries, rel)) is Some implies path
                != joined_all(style, staging, rel) by {
                lemma_package_way(platform, entries, rel);
                assert(lies_below(style, staging, joined_all(style, staging, rel)));
            }
        }
        if is_not_of_package(platform, target, entries, path) {
            assert(same_at(once, between, path));
            assert(same_at(start, twice, path));
        }
    }
}

/// Operations that are confined to a directory change no file outside it.
proof fn lemma_confined_keeps(
    style: Style,
    base: Seq<char>,
    ops: Seq<FileOpView>,
    files: Files,
    path: Seq<char>,
)
    requires
        forall|i: int| 0 <= i < ops.len() ==> is_confined(style, base, #[trigger] ops[i]),
        !lies_below(style, base, path),
    ensures
        same_at(files, after_all(files, ops), path),
    decreases ops.len(),
{
    if ops.len() > 0 {
        let init = ops.drop_last();
        assert forall|i: int| 0 <= i < init.len() implies is_confined(
            style,
            base,
            #[trigger] init[i],
        ) by {
            assert(init[i] == ops[i]);
        }
        lemma_confined_keeps(style, base, init, files, path);
        assert(is_confined(style, base, ops[ops.len() - 1]));
    }
}

/// Extracting a package changes no file outside the staging directory, wherever it
/// stops: at an operation that fails, at the fault of the plan, or at its end.
pub proof fn law_unpacking_keeps_the_rest(
    platform: Platform,
    staging: Seq<char>,
    stored: Seq<Result<StoredEntry, Seq<char>>>,
    plan: PlanView,
    files: Files,
    n: int,
    path: Seq<char>,
)
    requires
        is_extraction(plan, platform, staging, stored) || is_layout(
            plan,
            platform,
            staging,
            stored,
        ),
        0 <= n <= plan.ops.len(),
        !lies_below(platform.path_style(), staging, path),
    ensures
        same_at(files, after_all(files, plan.ops.take(n)), path),
        same_at(
            files,
            discarded(
                platform.path_style(),
                after_all(files, plan.ops.take(n)),
                staging,
            ),
            path,
        ),
{
    let style = platform.path_style();
    let ops = plan.ops.take(n);
    law_no_traversal(platform, staging, stored, plan);
    assert forall|i: int| 0 <= i < ops.len() implies is_confined(style, staging, #[trigger] ops[i]) by {
        assert(ops[i] == plan.ops[i]);
    }
    lemma_confined_keeps(style, staging, ops, files, path);
}

/// `rel` leads to a directory by way of the first `n` entries.
pub open spec fn has_dir_first(listing: Listing, n: nat, rel: Seq<Seq<char>>) -> bool
    decreases listing, n,
{
    if n == 0 || n > listing.entries@.len() {
        false
    } else {
        ||| has_dir_first(listing, (n - 1) as nat, rel)
        ||| match listing.entries@[n - 1] {
            Node::File { .. } => false,
            Node::Dir { name, listing: below } => rel.len() > 0 && rel.first() == name@ && (
            rel.len() == 1 || has_dir(below, rel.drop_first())),
        }
    }
}

/// `rel` leads, directory by directory, to a directory.
pub open spec fn has_dir(listing: Listing, rel: Seq<Seq<char>>) -> bool
    decreases listing, listing.entries@.len() + 1,
{
    has_dir_first(listing, listing.entries@.len(), rel)
}

proof fn lemma_merge_makes_directories(
    style: Style,
    src: Seq<char>,
    dst: Seq<char>,
    listing: Listing,
    n: nat,
    rel: Seq<Seq<char>>,
)
    requires
        n <= listing.entries@.len(),
        is_tidy_first(style, listing, n),
        has_dir_first(listing, n, rel),
    ensures
        merging_first(style, src, dst, listing, n).ops.contains(
            FileOp::CreateDirAll { dir: joined_all(style, dst, rel) },
        ),
    decreases listing, n,
{
    reveal_with_fuel(is_tidy_first, 2);
    reveal_with_fuel(merging_first, 2);
    reveal_with_fuel(has_dir_first, 2);
    let m = (n - 1) as nat;
    let make: FileOpView = FileOp::CreateDirAll { dir: joined_all(style, dst, rel) };
    let before = merging_first(style, src, dst, listing, m).ops;
    let all = merging_first(style, src, dst, listing, n).ops;
    lemma_tidy_faultless(style, src, dst, listing, m);
    lemma_tidy_faultless(style, src, dst, listing, n);
    if has_dir_first(listing, m, rel) {
        lemma_merge_makes_directories(style, src, dst, listing, m, rel);
        let k = choose|k: int| 0 <= k < before.len() && before[k] == make;
        assert(all[k] == make);
    } else if let Node::Dir { name, listing: below } = listing.entries@[n - 1] {
        let from = joined(style, src, name@);
        let to = joined(style, dst, name@);
        let inner = merging(style, from, to, below);
        let at = before.len() as int;
        lemma_joined_shift(style, dst, name@, rel.drop_first());
        assert(seq![name@] + rel.drop_first() =~= rel);
        if rel.len() == 1 {
            assert(joined_all(style, to, rel.drop_first()) == to);
            assert(all[at] == make);
        } else {
            let count = below.entries@.len();
            lemma_merge_makes_directories(style, from, to, below, count, rel.drop_first());
            lemma_tidy_faultless(style, from, to, below, count);
            assert(inner.ops =~= merging_first(style, from, to, below, count).ops);
            let k = choose|k: int| 0 <= k < inner.ops.len() && inner.ops[k] == make;
            assert(all[at + 1 + k] == make);
        }
    }
}

/// Moving a staged tree over a directory makes every staged directory there.
pub proof fn law_merge_makes_directories(
    style: Style,
    src: Seq<char>,
    dst: Seq<char>,
    listing: Listing,
    rel: Seq<Seq<char>>,
)
    requires
        is_tidy(style, listing),
        has_dir(listing, rel),
    ensures
        merging(style, src, dst, listing).ops.contains(
            FileOp::CreateDirAll { dir: joined_all(style, dst, rel) },
        ),
{
    let count = listing.entries@.len();
    lemma_merge_makes_directories(style, src, dst, listing, count, rel);
    lemma_tidy_faultless(style, src, dst, listing, count);
    assert(merging(style, src, dst, listing).ops =~= merging_first(
        style,
        src,
        dst,
        listing,
        count,
    ).ops);
}

} // verus!
