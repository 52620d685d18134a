//! Where an update is staged.

use vstd::prelude::*;
use crate::carry::lies_right_in;
use crate::overlay::is_elsewhere;
use crate::path::{
    all_slashes, closed, cut, drive_at, file_name, has_leading_dot, has_root, head_len,
    is_file_name, is_plain, is_separator, is_void_at, join, joined, lacks_share, last_component,
    last_start, law_joined, law_joined_parts, law_unix_parts, lemma_drive_found,
    lemma_drive_kept, lemma_head, lemma_last_component, lemma_no_prefix,
    lemma_opened_below_verbatim, lemma_opened_new_verbatim, lemma_prefix_closed,
    lemma_prefix_found, lemma_prefix_kept, lemma_settled, lemma_settled_rest,
    lemma_settled_squeezed, lemma_settled_twice, lemma_squeezed, lemma_squeezed_add,
    lemma_verbatim_drive_found, lemma_verbatim_len, name_of, opened, parent, parent_of,
    prefix_of, sep_at, settled, shape_of, splits, squeezed, starts_component, Style,
};

verus! {

/// The name of the directory that an update is staged in, next to a target of
/// the given name.
pub open spec fn staging_name(tag: Seq<char>, target_name: Option<Seq<char>>) -> Seq<char> {
    match target_name {
        Some(name) => "."@ + tag + "-update-tmp-"@ + name,
        None => "."@ + tag + "-update-tmp"@,
    }
}

/// The directory that an update of `target` is staged in: it stands next to
/// the target, so that moving from it stays on one volume.
pub open spec fn staging_of(style: Style, target: Seq<char>, tag: Seq<char>) -> Seq<char> {
    let dir = match parent_of(style, target) {
        Some(dir) => dir,
        None => target,
    };
    joined(style, dir, staging_name(tag, name_of(style, target)))
}

/// The directory that an update of `target` is staged in.
pub fn staging_path(style: Style, target: &str, tag: &str) -> (r: String)
    ensures
        r@ == staging_of(style, target@, tag@),
{
    let mut name = ".".to_owned();
    name.append(tag);
    match file_name(style, target) {
        Some(target_name) => {
            name.append("-update-tmp-");
            name.append(&target_name);
        },
        None => {
            name.append("-update-tmp");
        },
    }
    match parent(style, target) {
        Some(dir) => join(style, &dir, &name),
        None => join(style, target, &name),
    }
}

/// No character of `s` separates components.
pub open spec fn is_solid(style: Style, s: Seq<char>) -> bool {
    forall|i: int| 0 <= i < s.len() ==> !is_separator(style, #[trigger] s[i])
}

/// No character of `s` splits the body of a path.
spec fn is_unsplit(style: Style, verbatim: bool, s: Seq<char>) -> bool {
    forall|i: int| 0 <= i < s.len() ==> !splits(style, verbatim, #[trigger] s[i])
}

/// Where a path goes on behind the parent of a target: behind a separator, if
/// the parent has a component of its own or is `.`.
spec fn behind_parent(style: Style, target: Seq<char>) -> int {
    let dir = parent_of(style, target)->0;
    if dir.len() > head_len(style, target) || (has_leading_dot(style, target) && dir.len()
        == head_len(style, target)) {
        dir.len() as int + 1
    } else {
        dir.len() as int
    }
}

/// The target has a component behind its head.
spec fn has_body(style: Style, target: Seq<char>) -> bool {
    settled(shape_of(style, target), target).len() > head_len(style, target)
}

/// The last component of a target that has one: its name, or `..`.
spec fn last_of(style: Style, target: Seq<char>) -> Seq<char> {
    let shape = shape_of(style, target);
    last_component(shape, settled(shape, target))
}

/// What a target with a last component consists of: its parent, then nothing that
/// means anything, then that component, and then a separator or the end.
#[verifier::rlimit(40)]
proof fn lemma_target_parts(style: Style, target: Seq<char>)
    requires
        has_body(style, target),
    ensures
        parent_of(style, target) is Some,
        ({
            let verbatim = prefix_of(style, target).verbatim;
            let last = last_of(style, target);
            let dir = parent_of(style, target)->0;
            let next = behind_parent(style, target);
            let start = last_start(
                shape_of(style, target),
                settled(shape_of(style, target), target),
            );
            let end = start + last.len();
            &&& last.len() > 0
            &&& is_unsplit(style, verbatim, last)
            &&& head_len(style, target) <= dir.len() <= next <= start
            &&& end <= target.len()
            &&& end < target.len() ==> splits(style, verbatim, target[end as int])
            &&& end == target.len() ==> target.last() == last.last()
            &&& next < start ==> splits(style, verbatim, target[next]) || splits(
                style,
                verbatim,
                target[next + 1],
            )
            &&& dir == target.take(dir.len() as int)
            &&& dir.len() > head_len(style, target) ==> splits(
                style,
                verbatim,
                target[dir.len() as int],
            ) && !splits(style, verbatim, dir.last())
            &&& settled(shape_of(style, target), dir) == dir
        }),
{
    let shape = shape_of(style, target);
    let verbatim = shape.verbatim;
    let h = shape.head as int;
    lemma_head(style, target);
    lemma_settled(shape, target);
    let q = settled(shape, target);
    lemma_last_component(shape, q);
    let m = q.len() as int;
    let st = last_start(shape, q) as int;
    let last = last_of(style, target);
    assert(last == q.skip(st));
    assert forall|i: int| 0 <= i < last.len() implies !splits(style, verbatim, #[trigger] last[i]) by {
        assert(last[i] == q[st + i]);
    }
    let c = cut(shape, q);
    assert(c =~= target.take(c.len() as int));
    lemma_settled(shape, c);
    let dir = settled(shape, c);
    let k = dir.len() as int;
    assert(dir =~= target.take(k));
    lemma_settled_twice(shape, c);
    assert(last.len() > 0) by {
        lemma_settled_rest(shape, target);
    }
    assert(m < target.len() ==> splits(style, verbatim, target[m])) by {
        lemma_settled_rest(shape, target);
    }
    assert(m == target.len() ==> target.last() == last.last());
    assert(k > h ==> splits(style, verbatim, target[k]) && !splits(style, verbatim, dir.last())) by {
        lemma_settled_rest(shape, c);
        lemma_last_component(shape, dir);
        if k > h {
            let own = last_component(shape, dir);
            assert(own[own.len() - 1] == dir.last());
        }
    }
    let next = behind_parent(style, target);
    assert(next < st ==> is_void_at(shape, c, next)) by {
        lemma_settled_rest(shape, c);
        assert(next < st ==> starts_component(shape, c, next));
    }
    if next < st {
        assert(splits(style, verbatim, target[st - 1]));
        assert(splits(style, verbatim, target[next]) || splits(style, verbatim, target[next + 1]));
    } else if st == h {
        assert(q[h] == target[h]);
        assert(!has_leading_dot(style, target));
    }
}

/// A verbatim target, ready for a name, is its parent, ready for a name, and its
/// last component.
proof fn lemma_verbatim_text(style: Style, target: Seq<char>)
    requires
        has_body(style, target),
        prefix_of(style, target).verbatim,
    ensures
        opened(style, target) == (opened(style, parent_of(style, target)->0) + last_of(
            style,
            target,
        )).push('\\'),
{
    let shape = shape_of(style, target);
    let h = shape.head as int;
    let dir = parent_of(style, target)->0;
    let last = last_of(style, target);
    let q = settled(shape, target);
    let c = cut(shape, q);
    lemma_head(style, target);
    lemma_target_parts(style, target);
    lemma_parent_shape(style, target);
    lemma_settled(shape, target);
    lemma_last_component(shape, q);
    lemma_settled_squeezed(shape, target);
    lemma_settled_squeezed(shape, c);
    let st = last_start(shape, q) as int;
    let before = q.subrange(h, st);
    assert(q.skip(h) =~= before + last);
    assert(!last.contains('\\'));
    lemma_squeezed_add(before, last);
    if st > h {
        assert(before =~= c.skip(h).push('\\'));
        lemma_squeezed_add(c.skip(h), last);
    } else {
        assert(before =~= seq![]);
        assert(c.skip(h) =~= seq![]);
    }
    assert(squeezed(before) == closed(squeezed(dir.skip(h))));
    assert((squeezed(before) + last).last() == last.last());
    assert(dir.take(prefix_of(style, dir).len as int) =~= target.take(
        prefix_of(style, target).len as int,
    ));
    assert(opened(style, target) =~= (opened(style, dir) + last).push('\\'));
}

/// Where the parent of a target ends, ready for a name, the target soon goes on
/// with a separator: behind its last component, or before that.
proof fn lemma_target_text(style: Style, target: Seq<char>)
    requires
        has_body(style, target),
        !prefix_of(style, target).verbatim,
    ensures
        ({
            let verbatim = prefix_of(style, target).verbatim;
            let last = last_of(style, target);
            let text = opened(style, target);
            let at = opened(style, parent_of(style, target)->0).len() as int;
            ||| at + last.len() < text.len() && splits(style, verbatim, text[at + last.len()])
            ||| at < text.len() && splits(style, verbatim, text[at])
            ||| at + 1 < text.len() && splits(style, verbatim, text[at + 1])
        }),
{
    let dir = parent_of(style, target)->0;
    let last = last_of(style, target);
    let open = opened(style, target);
    lemma_target_parts(style, target);
    lemma_head(style, target);
    lemma_prefix_closed(style, target);
    lemma_prefix_kept(style, target, dir.len());
    assert(opened(style, dir).len() == behind_parent(style, target));
    assert(!splits(style, prefix_of(style, target).verbatim, last.last()));
    assert forall|i: int| 0 <= i < target.len() implies open[i] == target[i] by {}
}

/// The name of a staging directory can be that of a directory.
pub proof fn lemma_staging_name(style: Style, tag: Seq<char>)
    requires
        is_solid(style, tag),
    ensures
        is_file_name(style, staging_name(tag, None)),
{
    reveal_strlit(".");
    reveal_strlit("-update-tmp");
    let own = staging_name(tag, None);
    assert(own.len() > 2);
    assert(own[0] == '.');
    assert(is_solid(style, own));
}

/// A target without a parent has no name.
pub proof fn lemma_rootless_name(style: Style, target: Seq<char>)
    requires
        parent_of(style, target) is None,
    ensures
        name_of(style, target) is None,
{
}

/// A target that is `.`, by itself or in front of nothing that means anything:
/// its parent is what stands before it.
proof fn lemma_dot_text(style: Style, target: Seq<char>)
    requires
        parent_of(style, target) is Some,
        !has_body(style, target),
    ensures
        ({
            let verbatim = prefix_of(style, target).verbatim;
            let text = opened(style, target);
            let dir = parent_of(style, target)->0;
            let at = opened(style, dir).len() as int;
            &&& has_leading_dot(style, target)
            &&& !verbatim && !prefix_of(style, dir).verbatim
            &&& dir == target.take(dir.len() as int)
            &&& at + 1 < text.len()
            &&& splits(style, verbatim, text[at + 1])
        }),
{
    let shape = shape_of(style, target);
    let x = prefix_of(style, target);
    let dir = parent_of(style, target)->0;
    lemma_head(style, target);
    lemma_settled(shape, target);
    assert(dir =~= target.take(x.len as int));
    if prefix_of(style, target).verbatim {
        lemma_verbatim_len(style, target);
    }
    if x.drive {
        lemma_drive_kept(style, target);
    } else {
        lemma_no_prefix(style, dir);
    }
    assert(opened(style, dir).len() == x.len);
}

/// A name taken below a directory stands as it is in the path before another name.
proof fn lemma_own_text(style: Style, dir: Seq<char>, own: Seq<char>)
    requires
        is_unsplit(style, prefix_of(style, dir).verbatim, own),
        own.len() > 2,
        own[0] == '.',
    ensures
        ({
            let at = opened(style, dir).len() as int;
            let text = opened(style, joined(style, dir, own));
            &&& at + own.len() <= text.len()
            &&& text.subrange(at, at + own.len()) == own
        }),
{
    let path = joined(style, dir, own);
    lemma_head(style, dir);
    lemma_head(style, path);
    if prefix_of(style, dir).verbatim {
        assert(!own.contains('\\'));
        lemma_opened_below_verbatim(dir, own);
    } else if prefix_of(style, path).verbatim {
        lemma_opened_new_verbatim(dir, own);
    }
}

/// Texts that differ somewhere are not the start of each other.
proof fn lemma_neither_starts(a: Seq<char>, b: Seq<char>, x: int)
    requires
        0 <= x < a.len(),
        x < b.len(),
        a[x] != b[x],
    ensures
        !a.is_prefix_of(b),
        !b.is_prefix_of(a),
{
    if a.is_prefix_of(b) {
        assert(a[x] == b.subrange(0, a.len() as int)[x]);
    }
    if b.is_prefix_of(a) {
        assert(b[x] == a.subrange(0, b.len() as int)[x]);
    }
}

/// The name of a staging directory is one component, starts with a dot, and is longer
/// than the last component of the target.
proof fn lemma_own_name(style: Style, target: Seq<char>, tag: Seq<char>)
    requires
        is_solid(style, tag),
        has_body(style, target),
    ensures
        ({
            let own = staging_name(tag, name_of(style, target));
            &&& is_unsplit(style, prefix_of(style, target).verbatim, own)
            &&& own.len() > last_of(style, target).len() + 2
            &&& own[0] == '.'
        }),
{
    lemma_head(style, target);
    lemma_target_parts(style, target);
    reveal_strlit(".");
    reveal_strlit("-update-tmp-");
    reveal_strlit("-update-tmp");
    assert("-update-tmp"@.len() == 11);
}

/// The staging directory of a target and the target itself lie apart: neither is
/// the other one or lies in it. Only a target without a parent, a root, holds its
/// staging directory.
pub proof fn law_staging_apart(style: Style, target: Seq<char>, tag: Seq<char>)
    requires
        parent_of(style, target) is Some,
        is_solid(style, tag),
    ensures
        is_elsewhere(style, staging_of(style, target, tag), target),
{
    let verbatim = prefix_of(style, target).verbatim;
    let dir = parent_of(style, target)->0;
    let own = staging_name(tag, name_of(style, target));
    let at = opened(style, dir).len() as int;
    let a = opened(style, staging_of(style, target, tag));
    let b = opened(style, target);
    let x: int;
    if has_body(style, target) {
        let last = last_of(style, target);
        lemma_own_name(style, target, tag);
        lemma_parent_shape(style, target);
        lemma_own_text(style, dir, own);
        assert(last.len() > 0) by {
            lemma_target_parts(style, target);
        }
        if verbatim {
            lemma_verbatim_text(style, target);
        } else {
            lemma_target_text(style, target);
        }
        x = if splits(style, verbatim, b[at]) && at < b.len() {
            at
        } else if at + 1 < b.len() && splits(style, verbatim, b[at + 1]) {
            at + 1
        } else {
            at + last.len()
        };
        assert(x < b.len() && splits(style, verbatim, b[x])) by {
            lemma_head(style, target);
        }
    } else {
        lemma_dot_text(style, target);
        lemma_staging_name(style, tag);
        reveal_strlit(".");
        reveal_strlit("-update-tmp");
        assert(own.len() > 2 && own[0] == '.');
        lemma_own_text(style, dir, own);
        x = at + 1;
    }
    assert(0 <= x - at < own.len());
    assert(a[x] == a.subrange(at, at + own.len())[x - at]);
    assert(!splits(style, verbatim, own[x - at]));
    lemma_neither_starts(a, b, x);
}

/// The parent of a target has the head of the target.
proof fn lemma_parent_shape(style: Style, target: Seq<char>)
    requires
        has_body(style, target),
    ensures
        ({
            let dir = parent_of(style, target)->0;
            &&& prefix_of(style, dir) == prefix_of(style, target)
            &&& shape_of(style, dir) == shape_of(style, target)
            &&& dir.len() == prefix_of(style, dir).len ==> opened(style, dir) == dir
        }),
{
    let x = prefix_of(style, target);
    let dir = parent_of(style, target)->0;
    lemma_target_parts(style, target);
    lemma_head(style, target);
    lemma_prefix_closed(style, target);
    lemma_prefix_kept(style, target, dir.len());
    if x.verbatim {
        lemma_verbatim_len(style, target);
    }
    assert forall|i: int| 0 <= i < dir.len() implies dir[i] == target[i] by {}
    assert(has_leading_dot(style, dir) == has_leading_dot(style, target)) by {
        let at = x.len as int;
        if has_leading_dot(style, target) {
            assert(dir[at] == '.');
        }
        if has_leading_dot(style, dir) {
            assert(target[at] == '.');
        }
    }
}

/// A verbatim target has a root, and so has its parent, and a backslash stands there
/// before a name.
proof fn lemma_verbatim_root(style: Style, target: Seq<char>)
    requires
        has_body(style, target),
        prefix_of(style, target).verbatim,
    ensures
        ({
            let x = prefix_of(style, target);
            let dir = parent_of(style, target)->0;
            let front = opened(style, dir);
            &&& has_root(style, target) && has_root(style, dir)
            &&& x.len < front.len()
            &&& front.take(x.len as int) == target.take(x.len as int)
            &&& front[x.len as int] == '\\'
        }),
{
    let x = prefix_of(style, target);
    let dir = parent_of(style, target)->0;
    lemma_target_parts(style, target);
    lemma_parent_shape(style, target);
    lemma_head(style, target);
    lemma_head(style, dir);
    lemma_prefix_closed(style, target);
    lemma_verbatim_len(style, target);
    lemma_squeezed(dir.skip(head_len(style, dir) as int));
    assert(dir[x.len as int] == target[x.len as int]);
    assert(opened(style, dir).take(x.len as int) =~= target.take(x.len as int));
}

/// The staging directory of a target stands next to the target: both have the same
/// parent. What has to hold is that the staging directory's path has the prefix of
/// the target's. The parent of a verbatim path is put together anew in that of the
/// staging directory.
pub proof fn law_staging_beside(style: Style, target: Seq<char>, tag: Seq<char>)
    requires
        name_of(style, target) is Some,
        is_solid(style, tag),
        prefix_of(style, staging_of(style, target, tag)) == prefix_of(style, target),
    ensures
        parent_of(style, staging_of(style, target, tag)) is Some,
        opened(style, parent_of(style, staging_of(style, target, tag))->0) == opened(
            style,
            parent_of(style, target)->0,
        ),
        !prefix_of(style, target).verbatim ==> parent_of(style, staging_of(style, target, tag))
            == parent_of(style, target),
        name_of(style, staging_of(style, target, tag)) == Some(
            staging_name(tag, name_of(style, target)),
        ),
{
    let x = prefix_of(style, target);
    let name = name_of(style, target)->0;
    let dir = parent_of(style, target)->0;
    let own = staging_name(tag, Some(name));
    let staging = staging_of(style, target, tag);
    lemma_head(style, target);
    lemma_target_parts(style, target);
    lemma_parent_shape(style, target);
    assert(name == last_of(style, target));
    reveal_strlit(".");
    reveal_strlit("-update-tmp-");
    assert(own.len() > 2);
    assert(own[0] == '.');
    assert(is_unsplit(style, x.verbatim, own));
    assert(staging[opened(style, dir).len() as int] == own[0]);
    assert(has_root(style, staging) == has_root(style, dir)) by {
        if x.verbatim {
            lemma_verbatim_root(style, target);
        } else if dir.len() > x.len {
            assert(staging[x.len as int] == dir[x.len as int]);
        }
    }
    law_joined_parts(style, dir, own);
    if x.verbatim {
        assert(!own.contains('\\'));
        lemma_opened_below_verbatim(dir, own);
        lemma_verbatim_text(style, staging);
        let front = opened(style, parent_of(style, staging)->0);
        assert(last_of(style, staging) == own);
        assert((opened(style, dir) + own).push('\\').len() == (front + own).push('\\').len());
        assert((front + own).push('\\').take(front.len() as int) =~= front);
        assert((opened(style, dir) + own).push('\\').take(front.len() as int) =~= opened(style, dir));
    }
}

/// The path of a staging directory has the prefix of the target's, unless that
/// starts with two separators and has none, or names a server without a share:
/// there the staging directory may be taken for a share.
pub proof fn law_staging_keeps_prefix(style: Style, target: Seq<char>, tag: Seq<char>)
    requires
        name_of(style, target) is Some,
        is_solid(style, tag),
        style == Style::Windows ==> prefix_of(style, target).len > 0 || !(sep_at(target, 0)
            && sep_at(target, 1)),
        style == Style::Windows ==> !lacks_share(target),
    ensures
        prefix_of(style, staging_of(style, target, tag)) == prefix_of(style, target),
{
    let x = prefix_of(style, target);
    let dir = parent_of(style, target)->0;
    let own = staging_name(tag, name_of(style, target));
    let staging = staging_of(style, target, tag);
    lemma_target_parts(style, target);
    lemma_parent_shape(style, target);
    lemma_head(style, target);
    lemma_head(style, staging);
    lemma_prefix_closed(style, target);
    reveal_strlit(".");
    reveal_strlit("-update-tmp-");
    assert(own.len() > 2);
    assert(own[0] == '.');
    assert(staging[opened(style, dir).len() as int] == own[0]);
    if x.verbatim {
        let k = x.len as int + 1;
        lemma_verbatim_root(style, target);
        lemma_verbatim_len(style, target);
        let front = opened(style, dir);
        assert(staging.take(x.len as int) =~= front.take(x.len as int));
        assert(staging[x.len as int] == front[x.len as int]);
        if target[x.len as int] == '\\' {
            assert(staging.take(k) =~= staging.take(x.len as int).push('\\'));
            assert(target.take(k) =~= target.take(x.len as int).push('\\'));
            lemma_prefix_kept(style, target, k as nat);
            lemma_prefix_found(style, staging, k as nat);
        } else {
            lemma_verbatim_drive_found(target, staging);
        }
    } else if style == Style::Windows {
        assert forall|i: int| 0 <= i < dir.len() implies staging[i] == target[i] by {
            assert(dir[i] == target[i]);
        }
        if x.drive {
            lemma_drive_found(style, staging);
        } else if x.len > 0 {
            assert(staging.take(dir.len() as int) =~= dir);
            lemma_prefix_kept(style, target, dir.len());
            lemma_prefix_found(style, staging, dir.len());
        } else {
            assert(!drive_at(target, 0)) by {
                if drive_at(target, 0) {
                    lemma_drive_found(style, target);
                }
            }
            lemma_no_prefix(style, staging);
            lemma_no_prefix(style, target);
        }
    }
}

/// Targets with one parent and different names are staged in different
/// directories, and so is one target under different tags.
pub proof fn law_staging_differs(
    style: Style,
    target: Seq<char>,
    tag: Seq<char>,
    other: Seq<char>,
    other_tag: Seq<char>,
)
    requires
        name_of(style, target) is Some,
        name_of(style, other) is Some,
        parent_of(style, target) == parent_of(style, other),
        (name_of(style, target) == name_of(style, other)) != (tag == other_tag),
    ensures
        staging_of(style, target, tag) != staging_of(style, other, other_tag),
{
    let front = opened(style, parent_of(style, target)->0);
    let name = name_of(style, target)->0;
    let other_name = name_of(style, other)->0;
    let a = staging_of(style, target, tag);
    let b = staging_of(style, other, other_tag);
    let mark = "-update-tmp-"@;
    lemma_target_parts(style, target);
    lemma_target_parts(style, other);
    if a == b {
        let at = front.len() + 1;
        reveal_strlit(".");
        if tag == other_tag {
            let start = (at + tag.len() + mark.len()) as int;
            assert(a.skip(start) =~= name);
            assert(b.skip(start) =~= other_name);
        } else {
            let end = a.len() - mark.len() - name.len();
            assert(a.subrange(at as int, end as int) =~= tag);
            assert(b.subrange(at as int, end as int) =~= other_tag);
        }
    }
}

/// Where an update is staged on Unix: in the directory of the target, under a hidden
/// name that tells the strategy and ends with the target's name. Slashes at the end
/// of the target mean nothing.
pub proof fn law_unix_staging(
    a: Seq<char>,
    dir: Seq<char>,
    name: Seq<char>,
    tail: Seq<char>,
    tag: Seq<char>,
)
    requires
        is_plain(Style::Unix, dir),
        is_plain(Style::Unix, name),
        all_slashes(tail),
    ensures
        staging_of(Style::Unix, (a.push('/') + dir).push('/') + name + tail, tag) == (a.push('/')
            + dir).push('/') + ("."@ + tag + "-update-tmp-"@ + name),
        staging_of(Style::Unix, seq!['/'] + name + tail, tag) == seq!['/'] + ("."@ + tag
            + "-update-tmp-"@ + name),
        staging_of(Style::Unix, name + tail, tag) == "."@ + tag + "-update-tmp-"@ + name,
{
    law_unix_parts(a, dir, name, tail);
    law_unix_parts(a.push('/') + dir, dir, name, tail);
    law_unix_parts(seq![], dir, name, tail);
    assert(Seq::<char>::empty().push('/') =~= seq!['/']);
    let own = "."@ + tag + "-update-tmp-"@ + name;
    let front = a.push('/') + dir;
    law_joined(front, own);
    law_joined(seq!['/'], own);
    law_joined(seq![], own);
    assert(front.last() == dir[dir.len() - 1]);
    assert(!is_separator(Style::Unix, dir[dir.len() - 1]));
    assert(seq![] + own =~= own);
}

/// The staging directory lies right in the parent of the target, or right in the
/// target where that has no parent. The names that a verbatim path can hold, with a
/// slash in them, are left out.
pub proof fn law_staging_right_beside(style: Style, target: Seq<char>, tag: Seq<char>)
    requires
        is_solid(style, tag),
        !prefix_of(style, target).verbatim,
    ensures
        parent_of(style, target) matches Some(dir) ==> lies_right_in(
            style,
            dir,
            staging_of(style, target, tag),
        ),
        parent_of(style, target) is None ==> lies_right_in(
            style,
            target,
            staging_of(style, target, tag),
        ),
{
    let own = staging_name(tag, name_of(style, target));
    lemma_staging_name(style, tag);
    if name_of(style, target) is Some {
        let name = name_of(style, target)->0;
        lemma_head(style, target);
        lemma_target_parts(style, target);
        reveal_strlit(".");
        reveal_strlit("-update-tmp-");
        assert(own.len() > 2 && own[0] == '.');
        assert(is_solid(style, own));
    }
    assert(is_file_name(style, own));
}

} // verus!
