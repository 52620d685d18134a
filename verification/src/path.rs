//! Lexical paths. A path is text; which characters separate its components,
//! and whether it may start with a drive or a share, is a matter of the
//! platform's [`Style`]. Nothing here looks at a file system.
//!
//! A path consists of a head and a body. The head is the prefix (Windows
//! only), followed by the root separator, or by a leading `.` component where
//! there is no root. The body is a list of components between separators, in
//! which empty components and `.` components mean nothing.

use vstd::prelude::*;
use crate::text::{chars_of, same, substring};

verus! {

/// How a platform writes its paths.
#[derive(Clone, Copy, PartialEq, Eq, Structural, Debug)]
pub enum Style {
    Unix,
    Windows,
}

/// The character that joining inserts between two components.
pub open spec fn main_separator(style: Style) -> char {
    match style {
        Style::Unix => '/',
        Style::Windows => '\\',
    }
}

/// Whether `c` separates components.
pub open spec fn is_separator(style: Style, c: char) -> bool {
    c == '/' || (style == Style::Windows && c == '\\')
}

/// `c` separates the components of a body: as [`is_separator`] says, but a
/// verbatim path knows the backslash only.
pub open spec fn splits(style: Style, verbatim: bool, c: char) -> bool {
    if verbatim {
        c == '\\'
    } else {
        is_separator(style, c)
    }
}

/// A path prefix: how long it is, whether it is verbatim (`\\?\`), and whether
/// a path may be relative to it, as `C:a` is.
pub struct Prefix {
    pub len: nat,
    pub verbatim: bool,
    pub drive: bool,
}

pub open spec fn no_prefix() -> Prefix {
    Prefix { len: 0, verbatim: false, drive: false }
}

/// A Windows separator stands at position `i`.
pub open spec fn sep_at(p: Seq<char>, i: int) -> bool {
    0 <= i < p.len() && is_separator(Style::Windows, p[i])
}

/// `c` stands at position `i`.
pub open spec fn char_at(p: Seq<char>, i: int, c: char) -> bool {
    0 <= i < p.len() && p[i] == c
}

/// A drive letter and a colon stand at position `i`.
pub open spec fn drive_at(p: Seq<char>, i: int) -> bool {
    &&& 0 <= i
    &&& i + 1 < p.len()
    &&& ('a' <= p[i] <= 'z' || 'A' <= p[i] <= 'Z')
    &&& p[i + 1] == ':'
}

/// The end of the component that starts at `from`: the first separator there
/// or after it, or the end of the path. In a verbatim path only a backslash
/// separates.
pub open spec fn component_end(p: Seq<char>, from: nat, verbatim: bool) -> nat
    decreases p.len() - from,
{
    if from >= p.len() {
        p.len()
    } else if splits(Style::Windows, verbatim, p[from as int]) {
        from
    } else {
        component_end(p, from + 1, verbatim)
    }
}

/// Two components that start at `from`, read as a server and its share: the
/// end of the share, or that of the server where no share follows.
pub open spec fn share_end(p: Seq<char>, from: nat, verbatim: bool) -> nat {
    let server = component_end(p, from, verbatim);
    let share = component_end(p, server + 1, verbatim);
    if server + 1 < share {
        share
    } else {
        server
    }
}

/// The prefix of a Windows path.
#[verifier::opaque]
pub open spec fn windows_prefix(p: Seq<char>) -> Prefix {
    if sep_at(p, 0) && sep_at(p, 1) {
        if char_at(p, 0, '\\') && char_at(p, 1, '\\') && char_at(p, 2, '?') && char_at(p, 3, '\\') {
            if char_at(p, 4, 'U') && char_at(p, 5, 'N') && char_at(p, 6, 'C') && sep_at(p, 7) {
                Prefix { len: share_end(p, 8, true), verbatim: true, drive: false }
            } else if drive_at(p, 4) && (p.len() == 6 || sep_at(p, 6)) {
                Prefix { len: 6, verbatim: true, drive: false }
            } else {
                Prefix { len: component_end(p, 4, true), verbatim: true, drive: false }
            }
        } else if char_at(p, 2, '.') && sep_at(p, 3) {
            Prefix { len: component_end(p, 4, false), verbatim: false, drive: false }
        } else {
            let server = component_end(p, 2, false);
            let share = component_end(p, server + 1, false);
            if 2 < server && server + 1 < share {
                Prefix { len: share, verbatim: false, drive: false }
            } else {
                no_prefix()
            }
        }
    } else if drive_at(p, 0) {
        Prefix { len: 2, verbatim: false, drive: true }
    } else {
        no_prefix()
    }
}

/// The prefix of a path. A Unix path has none.
pub open spec fn prefix_of(style: Style, p: Seq<char>) -> Prefix {
    match style {
        Style::Unix => no_prefix(),
        Style::Windows => windows_prefix(p),
    }
}

/// The path has a root separator right behind its prefix.
pub open spec fn has_root(style: Style, p: Seq<char>) -> bool {
    let x = prefix_of(style, p);
    x.len < p.len() && is_separator(style, p[x.len as int])
}

/// The path starts, behind its prefix, with a `.` component. A path under a
/// prefix other than a drive is rooted, and has none.
pub open spec fn has_leading_dot(style: Style, p: Seq<char>) -> bool {
    let x = prefix_of(style, p);
    &&& !has_root(style, p)
    &&& x.len == 0 || x.drive
    &&& x.len < p.len()
    &&& p[x.len as int] == '.'
    &&& x.len + 1 == p.len() || splits(style, x.verbatim, p[x.len as int + 1])
}

/// The length of the head: prefix, and root separator or leading `.`.
pub open spec fn head_len(style: Style, p: Seq<char>) -> nat {
    prefix_of(style, p).len + if has_root(style, p) || has_leading_dot(style, p) {
        1nat
    } else {
        0
    }
}

/// What of a path the splitting of its body depends on.
pub struct Shape {
    pub style: Style,
    pub verbatim: bool,
    pub head: nat,
}

pub open spec fn shape_of(style: Style, p: Seq<char>) -> Shape {
    Shape { style, verbatim: prefix_of(style, p).verbatim, head: head_len(style, p) }
}

/// Where the last component of the body starts.
pub open spec fn last_start(shape: Shape, p: Seq<char>) -> nat
    decreases p.len(),
{
    if p.len() <= shape.head {
        shape.head
    } else if splits(shape.style, shape.verbatim, p.last()) {
        p.len()
    } else {
        last_start(shape, p.drop_last())
    }
}

/// The last component of the body.
pub open spec fn last_component(shape: Shape, p: Seq<char>) -> Seq<char> {
    p.skip(last_start(shape, p) as int)
}

/// The path without the last component of its body and without the separator
/// before it.
pub open spec fn cut(shape: Shape, p: Seq<char>) -> Seq<char> {
    let start = last_start(shape, p);
    if start > shape.head {
        p.take(start as int - 1)
    } else {
        p.take(shape.head as int)
    }
}

/// A component that means nothing: an empty one, or `.` outside a verbatim
/// path.
pub open spec fn is_void(shape: Shape, c: Seq<char>) -> bool {
    c.len() == 0 || (!shape.verbatim && c == seq!['.'])
}

/// The path without the meaningless components at its end.
pub open spec fn settled(shape: Shape, p: Seq<char>) -> Seq<char>
    decreases p.len(),
{
    if p.len() > shape.head && is_void(shape, last_component(shape, p)) {
        proof {
            lemma_last_start(shape, p);
        }
        settled(shape, cut(shape, p))
    } else {
        p
    }
}

/// The final component of a path, if it is a name: not a root, a prefix, `.`
/// or `..`.
pub open spec fn name_of(style: Style, p: Seq<char>) -> Option<Seq<char>> {
    let shape = shape_of(style, p);
    let q = settled(shape, p);
    let c = last_component(shape, q);
    if q.len() > shape.head && c != seq!['.', '.'] && c != seq!['.'] {
        Some(c)
    } else {
        None
    }
}

/// The path without its final component. A path that is a root, a prefix or
/// empty has no parent.
pub open spec fn parent_of(style: Style, p: Seq<char>) -> Option<Seq<char>> {
    let shape = shape_of(style, p);
    let q = settled(shape, p);
    if q.len() > shape.head {
        Some(settled(shape, cut(shape, q)))
    } else if has_leading_dot(style, p) {
        Some(p.take(shape.head - 1))
    } else {
        None
    }
}

/// Text behind a backslash, without backslashes that follow one.
pub open spec fn squeezed(s: Seq<char>) -> Seq<char>
    decreases s.len(),
{
    if s.len() == 0 {
        seq!['\\']
    } else {
        let before = squeezed(s.drop_last());
        if s.last() == '\\' && before.last() == '\\' {
            before
        } else {
            before.push(s.last())
        }
    }
}

/// Text with a backslash at its end.
pub open spec fn closed(s: Seq<char>) -> Seq<char> {
    if s.last() == '\\' {
        s
    } else {
        s.push('\\')
    }
}

/// The path of a directory as it stands before the name of something in it:
/// with a separator at its end, unless it is empty or a bare drive. The components
/// of a verbatim path are put together anew, with one backslash between them.
pub open spec fn opened(style: Style, base: Seq<char>) -> Seq<char> {
    let x = prefix_of(style, base);
    let bare_drive = x.drive && base.len() == x.len;
    if x.verbatim {
        base.take(x.len as int) + closed(squeezed(base.skip(head_len(style, base) as int)))
    } else if base.len() == 0 || is_separator(style, base.last()) || bare_drive {
        base
    } else {
        base.push(main_separator(style))
    }
}

/// `name`, that of something in `base`, taken below it.
pub open spec fn joined(style: Style, base: Seq<char>, name: Seq<char>) -> Seq<char> {
    opened(style, base) + name
}

/// `names`, one below the other, taken below `base`.
pub open spec fn joined_all(style: Style, base: Seq<char>, names: Seq<Seq<char>>) -> Seq<char>
    decreases names.len(),
{
    if names.len() == 0 {
        base
    } else {
        joined(style, joined_all(style, base, names.drop_last()), names.last())
    }
}

/// A component that names something right below where it stands: it is not
/// empty, not `.` or `..`, and holds no separator.
pub open spec fn is_plain(style: Style, name: Seq<char>) -> bool {
    &&& name.len() > 0
    &&& name != seq!['.']
    &&& name != seq!['.', '.']
    &&& forall|i: int| 0 <= i < name.len() ==> !is_separator(style, #[trigger] name[i])
}

/// A name that a file or directory can have. On Windows, one that starts with a
/// letter and a colon is taken for a drive.
pub open spec fn is_file_name(style: Style, name: Seq<char>) -> bool {
    is_plain(style, name) && (style == Style::Windows ==> !drive_at(name, 0))
}

/// Every component can be the name of a file or directory.
pub open spec fn are_file_names(style: Style, rel: Seq<Seq<char>>) -> bool {
    forall|i: int| 0 <= i < rel.len() ==> is_file_name(style, #[trigger] rel[i])
}

/// The last component starts within the body.
pub proof fn lemma_last_start(shape: Shape, p: Seq<char>)
    requires
        shape.head <= p.len(),
    ensures
        shape.head <= last_start(shape, p) <= p.len(),
    decreases p.len(),
{
    if p.len() > shape.head && !splits(shape.style, shape.verbatim, p.last()) {
        lemma_last_start(shape, p.drop_last());
    }
}

/// A component ends within the path.
pub proof fn lemma_component_end(p: Seq<char>, from: nat, verbatim: bool)
    ensures
        component_end(p, from, verbatim) <= p.len(),
        from <= p.len() ==> from <= component_end(p, from, verbatim),
    decreases p.len() - from,
{
    if from < p.len() && !splits(Style::Windows, verbatim, p[from as int]) {
        lemma_component_end(p, from + 1, verbatim);
    }
}

/// The head is part of the path, and a drive takes two characters of it.
pub proof fn lemma_head(style: Style, p: Seq<char>)
    ensures
        prefix_of(style, p).len <= p.len(),
        head_len(style, p) <= p.len(),
        prefix_of(style, p).drive ==> prefix_of(style, p) == (Prefix {
            len: 2,
            verbatim: false,
            drive: true,
        }) && drive_at(p, 0),
        prefix_of(style, p).verbatim ==> style == Style::Windows,
{
    reveal(windows_prefix);
    lemma_component_end(p, 2, false);
    lemma_component_end(p, component_end(p, 2, false) + 1, false);
    lemma_component_end(p, 4, false);
    lemma_component_end(p, 4, true);
    lemma_component_end(p, 8, true);
    lemma_component_end(p, component_end(p, 8, true) + 1, true);
}

/// A component that ends before the path does ends at a separator.
pub proof fn lemma_component_stop(p: Seq<char>, from: nat, verbatim: bool)
    requires
        component_end(p, from, verbatim) < p.len(),
    ensures
        splits(Style::Windows, verbatim, p[component_end(p, from, verbatim) as int]),
    decreases p.len() - from,
{
    if from < p.len() && !splits(Style::Windows, verbatim, p[from as int]) {
        lemma_component_stop(p, from + 1, verbatim);
    }
}

/// Behind a prefix other than a drive there is a root separator or nothing.
pub proof fn lemma_prefix_closed(style: Style, p: Seq<char>)
    ensures
        ({
            let x = prefix_of(style, p);
            x.len > 0 && !x.drive && x.len < p.len() ==> has_root(style, p)
        }),
{
    reveal(windows_prefix);
    let x = prefix_of(style, p);
    if x.len > 0 && !x.drive && x.len < p.len() {
        if x.verbatim {
            let server = component_end(p, 8, true);
            if char_at(p, 4, 'U') && char_at(p, 5, 'N') && char_at(p, 6, 'C') && sep_at(p, 7) {
                if x.len == server {
                    lemma_component_stop(p, 8, true);
                } else {
                    lemma_component_stop(p, server + 1, true);
                }
            } else if x.len == component_end(p, 4, true) {
                lemma_component_stop(p, 4, true);
            }
        } else if char_at(p, 2, '.') && sep_at(p, 3) {
            lemma_component_stop(p, 4, false);
        } else {
            lemma_component_stop(p, component_end(p, 2, false) + 1, false);
        }
    }
}

/// A component that ends within the first `k` characters ends at the same place
/// there.
proof fn lemma_component_end_take(p: Seq<char>, from: nat, verbatim: bool, k: nat)
    requires
        k <= p.len(),
    ensures
        component_end(p.take(k as int), from, verbatim) == if component_end(p, from, verbatim) < k {
            component_end(p, from, verbatim)
        } else {
            k
        },
    decreases p.len() - from,
{
    let q = p.take(k as int);
    lemma_component_end(p, from, verbatim);
    if from < k {
        assert(q[from as int] == p[from as int]);
        if !splits(Style::Windows, verbatim, p[from as int]) {
            lemma_component_end_take(p, from + 1, verbatim, k);
        }
    }
}

/// A part of a path that holds its head has the same prefix.
pub proof fn lemma_prefix_kept(style: Style, p: Seq<char>, k: nat)
    requires
        head_len(style, p) <= k <= p.len(),
    ensures
        prefix_of(style, p.take(k as int)) == prefix_of(style, p),
        has_root(style, p.take(k as int)) == has_root(style, p),
        style == Style::Windows && lacks_share(p.take(k as int)) ==> lacks_share(p),
{
    reveal(windows_prefix);
    let q = p.take(k as int);
    assert forall|i: int| 0 <= i < k implies q[i] == p[i] by {}
    lemma_component_end_take(p, 2, false, k);
    lemma_component_end_take(p, component_end(p, 2, false) + 1, false, k);
    lemma_component_end_take(p, k + 1, false, k);
    lemma_component_end_take(p, 4, false, k);
    lemma_component_end_take(p, 4, true, k);
    lemma_component_end_take(p, 8, true, k);
    lemma_component_end_take(p, component_end(p, 8, true) + 1, true, k);
    lemma_component_end_take(p, k + 1, true, k);
    lemma_component_end(p, 2, false);
    lemma_component_end(p, 4, false);
    lemma_component_end(p, 4, true);
    lemma_component_end(p, 8, true);
    lemma_prefix_closed(style, p);
}

/// A drive by itself is a drive.
pub proof fn lemma_drive_kept(style: Style, p: Seq<char>)
    requires
        prefix_of(style, p).drive,
    ensures
        prefix_of(style, p.take(2)) == prefix_of(style, p),
{
    reveal(windows_prefix);
}

/// Settling keeps the head, and gives back a part of the path from its start.
pub proof fn lemma_settled(shape: Shape, p: Seq<char>)
    requires
        shape.head <= p.len(),
    ensures
        shape.head <= settled(shape, p).len() <= p.len(),
        settled(shape, p) == p.take(settled(shape, p).len() as int),
    decreases p.len(),
{
    lemma_last_start(shape, p);
    if p.len() > shape.head && is_void(shape, last_component(shape, p)) {
        let q = cut(shape, p);
        lemma_settled(shape, q);
        assert(q.take(settled(shape, q).len() as int) =~= p.take(settled(shape, q).len() as int));
    } else {
        assert(p.take(p.len() as int) =~= p);
    }
}

fn splits_at(style: Style, verbatim: bool, c: char) -> (r: bool)
    ensures
        r == splits(style, verbatim, c),
{
    if verbatim {
        c == '\\'
    } else {
        separates(style, c)
    }
}

/// Whether `c` separates components.
pub fn separates(style: Style, c: char) -> (r: bool)
    ensures
        r == is_separator(style, c),
{
    c == '/' || (style == Style::Windows && c == '\\')
}

fn find_component_end(p: &Vec<char>, from: usize, verbatim: bool) -> (r: usize)
    ensures
        r == component_end(p@, from as nat, verbatim),
{
    let mut i: usize = from;
    while i < p.len() && !splits_at(Style::Windows, verbatim, p[i])
        invariant
            component_end(p@, from as nat, verbatim) == component_end(p@, i as nat, verbatim),
        decreases p@.len() - i,
    {
        i += 1;
    }
    if i < p.len() {
        i
    } else {
        p.len()
    }
}

pub(crate) fn has_sep(p: &Vec<char>, i: usize) -> (r: bool)
    ensures
        r == sep_at(p@, i as int),
{
    i < p.len() && separates(Style::Windows, p[i])
}

pub(crate) fn has_char(p: &Vec<char>, i: usize, c: char) -> (r: bool)
    ensures
        r == char_at(p@, i as int, c),
{
    i < p.len() && p[i] == c
}

pub(crate) fn has_drive(p: &Vec<char>, i: usize) -> (r: bool)
    requires
        i < 16,
    ensures
        r == drive_at(p@, i as int),
{
    i + 1 < p.len() && (('a' <= p[i] && p[i] <= 'z') || ('A' <= p[i] && p[i] <= 'Z')) && p[i + 1]
        == ':'
}

/// The end of the component behind the one that ends at `end`.
fn find_next_end(p: &Vec<char>, end: usize, verbatim: bool) -> (r: usize)
    requires
        end <= p@.len(),
    ensures
        r == component_end(p@, (end + 1) as nat, verbatim),
{
    if end < p.len() {
        find_component_end(p, end + 1, verbatim)
    } else {
        p.len()
    }
}

/// The length of the prefix, whether it is verbatim, and whether it is a drive.
fn find_prefix(style: Style, p: &Vec<char>) -> (r: (usize, bool, bool))
    ensures
        prefix_of(style, p@) == (Prefix { len: r.0 as nat, verbatim: r.1, drive: r.2 }),
        r.0 <= p@.len(),
{
    proof {
        reveal(windows_prefix);
        lemma_head(style, p@);
        lemma_component_end(p@, 2, false);
        lemma_component_end(p@, 8, true);
    }
    if style == Style::Unix {
        return (0, false, false);
    }
    if has_sep(p, 0) && has_sep(p, 1) {
        if has_char(p, 0, '\\') && has_char(p, 1, '\\') && has_char(p, 2, '?') && has_char(
            p,
            3,
            '\\',
        ) {
            if has_char(p, 4, 'U') && has_char(p, 5, 'N') && has_char(p, 6, 'C') && has_sep(p, 7) {
                let server = find_component_end(p, 8, true);
                let share = find_next_end(p, server, true);
                if share > 0 && server < share - 1 {
                    (share, true, false)
                } else {
                    (server, true, false)
                }
            } else if has_drive(p, 4) && (p.len() == 6 || has_sep(p, 6)) {
                (6, true, false)
            } else {
                (find_component_end(p, 4, true), true, false)
            }
        } else if has_char(p, 2, '.') && has_sep(p, 3) {
            (find_component_end(p, 4, false), false, false)
        } else {
            let server = find_component_end(p, 2, false);
            let share = find_next_end(p, server, false);
            if 2 < server && share > 0 && server < share - 1 {
                (share, false, false)
            } else {
                (0, false, false)
            }
        }
    } else if has_drive(p, 0) {
        (2, false, true)
    } else {
        (0, false, false)
    }
}

/// What the splitting of a path's body depends on, and whether the head ends
/// in a leading `.` component.
struct Outline {
    style: Style,
    verbatim: bool,
    head: usize,
    leading_dot: bool,
}

impl Outline {
    spec fn shape(self) -> Shape {
        Shape { style: self.style, verbatim: self.verbatim, head: self.head as nat }
    }

    fn of(style: Style, p: &Vec<char>) -> (r: Outline)
        ensures
            r.shape() == shape_of(style, p@),
            r.leading_dot == has_leading_dot(style, p@),
            r.head <= p@.len(),
    {
        let (len, verbatim, drive) = find_prefix(style, p);
        let rooted = len < p.len() && separates(style, p[len]);
        let leading_dot = !rooted && (len == 0 || drive) && len < p.len() && p[len] == '.' && (len
            == p.len() - 1 || splits_at(style, verbatim, p[len + 1]));
        let head: usize = if rooted || leading_dot {
            len + 1
        } else {
            len
        };
        Outline { style, verbatim, head, leading_dot }
    }

    /// Where the last component of the first `len` characters starts.
    fn last_start(&self, p: &Vec<char>, len: usize) -> (r: usize)
        requires
            self.head <= len <= p@.len(),
        ensures
            r == last_start(self.shape(), p@.take(len as int)),
            self.head <= r <= len,
    {
        proof {
            lemma_last_start(self.shape(), p@.take(len as int));
        }
        let mut i: usize = len;
        while i > self.head && !splits_at(self.style, self.verbatim, p[i - 1])
            invariant
                self.head <= i <= len <= p@.len(),
                last_start(self.shape(), p@.take(len as int)) == last_start(
                    self.shape(),
                    p@.take(i as int),
                ),
            decreases i,
        {
            assert(p@.take(i as int).drop_last() =~= p@.take(i - 1));
            i -= 1;
        }
        i
    }

    /// The length that is left of the first `len` characters without their
    /// last component.
    fn cut(&self, p: &Vec<char>, len: usize) -> (r: usize)
        requires
            self.head <= len <= p@.len(),
        ensures
            cut(self.shape(), p@.take(len as int)) == p@.take(r as int),
            self.head <= r <= len,
            self.head < len ==> r < len,
    {
        let start = self.last_start(p, len);
        let r: usize = if start > self.head {
            start - 1
        } else {
            self.head
        };
        assert(p@.take(len as int).take(r as int) =~= p@.take(r as int));
        r
    }

    /// The length of the first `len` characters without meaningless components
    /// at their end.
    fn settle(&self, p: &Vec<char>, len: usize) -> (r: usize)
        requires
            self.head <= len <= p@.len(),
        ensures
            settled(self.shape(), p@.take(len as int)) == p@.take(r as int),
            self.head <= r <= len,
    {
        let mut n: usize = len;
        while n > self.head
            invariant
                self.head <= n <= len <= p@.len(),
                settled(self.shape(), p@.take(len as int)) == settled(
                    self.shape(),
                    p@.take(n as int),
                ),
            ensures
                self.head <= n <= len <= p@.len(),
                settled(self.shape(), p@.take(len as int)) == p@.take(n as int),
            decreases n,
        {
            let start = self.last_start(p, n);
            let ghost last = last_component(self.shape(), p@.take(n as int));
            let void = start == n || (!self.verbatim && start == n - 1 && p[start] == '.');
            assert(last.len() == n - start);
            assert(void == is_void(self.shape(), last)) by {
                if start == n - 1 {
                    assert(last[0] == p@[start as int]);
                    if p@[start as int] == '.' {
                        assert(last =~= seq!['.']);
                    }
                }
            }
            if !void {
                break;
            }
            n = self.cut(p, n);
        }
        n
    }
}

/// The final component of a path, if it is a name.
pub fn file_name(style: Style, path: &str) -> (r: Option<String>)
    ensures
        match name_of(style, path@) {
            Some(name) => r is Some && r->0@ == name,
            None => r is None,
        },
{
    let p = chars_of(path);
    let outline = Outline::of(style, &p);
    assert(p@.take(p@.len() as int) =~= p@);
    let end = outline.settle(&p, p.len());
    if end == outline.head {
        return None;
    }
    let start = outline.last_start(&p, end);
    let ghost last = last_component(outline.shape(), p@.take(end as int));
    assert(last =~= p@.subrange(start as int, end as int));
    let name = substring(path, start, end);
    proof {
        reveal_strlit(".");
        reveal_strlit("..");
        assert("."@ =~= seq!['.']);
        assert(".."@ =~= seq!['.', '.']);
    }
    if same(&name, ".") || same(&name, "..") {
        None
    } else {
        Some(name)
    }
}

/// The path without its final component.
pub fn parent(style: Style, path: &str) -> (r: Option<String>)
    ensures
        match parent_of(style, path@) {
            Some(dir) => r is Some && r->0@ == dir,
            None => r is None,
        },
{
    let p = chars_of(path);
    let outline = Outline::of(style, &p);
    assert(p@.take(p@.len() as int) =~= p@);
    let end = outline.settle(&p, p.len());
    if end > outline.head {
        let left = outline.cut(&p, end);
        let dir = outline.settle(&p, left);
        assert(p@.take(dir as int) =~= p@.subrange(0, dir as int));
        Some(substring(path, 0, dir))
    } else if outline.leading_dot {
        let dir: usize = outline.head - 1;
        assert(p@.take(dir as int) =~= p@.subrange(0, dir as int));
        Some(substring(path, 0, dir))
    } else {
        None
    }
}

/// The body of a verbatim path behind its prefix, ready for a name.
fn squeeze(base: &str, p: &Vec<char>, head: usize) -> (r: String)
    requires
        p@ == base@,
        head <= p@.len(),
    ensures
        r@ == closed(squeezed(p@.skip(head as int))),
{
    proof {
        reveal_strlit("\\");
        assert("\\"@ =~= seq!['\\']);
    }
    let ghost body = p@.skip(head as int);
    let mut out = "\\".to_owned();
    let mut ends = true;
    let mut i: usize = head;
    assert(body.take(0) =~= seq![]);
    while i < p.len()
        invariant
            head <= i <= p@.len(),
            p@ == base@,
            body == p@.skip(head as int),
            out@.len() > 0,
            out@ == squeezed(body.take(i - head)),
            ends == (out@.last() == '\\'),
        decreases p@.len() - i,
    {
        assert(body.take(i + 1 - head).drop_last() =~= body.take(i - head));
        assert(body.take(i + 1 - head).last() == p@[i as int]);
        let is_backslash = p[i] == '\\';
        if !(is_backslash && ends) {
            let ghost before = out@;
            out.append(&substring(base, i, i + 1));
            assert(out@ =~= before.push(p@[i as int]));
            ends = is_backslash;
        }
        i += 1;
    }
    assert(body.take(body.len() as int) =~= body);
    if !ends {
        let ghost before = out@;
        out.append("\\");
        assert(out@ =~= before.push('\\'));
    }
    out
}

/// `name`, that of something in `base`, taken below it.
pub fn join(style: Style, base: &str, name: &str) -> (r: String)
    ensures
        r@ == joined(style, base@, name@),
{
    let p = chars_of(base);
    let (len, verbatim, drive) = find_prefix(style, &p);
    if verbatim {
        let outline = Outline::of(style, &p);
        let mut out = substring(base, 0, len);
        assert(out@ =~= base@.take(len as int));
        out.append(&squeeze(base, &p, outline.head));
        out.append(name);
        return out;
    }
    let bare_drive = drive && p.len() == len;
    let mut out = base.to_owned();
    if !(p.len() == 0 || separates(style, p[p.len() - 1]) || bare_drive) {
        proof {
            reveal_strlit("/");
            reveal_strlit("\\");
            assert(base@ + "/"@ =~= base@.push('/'));
            assert(base@ + "\\"@ =~= base@.push('\\'));
        }
        match style {
            Style::Unix => out.append("/"),
            Style::Windows => out.append("\\"),
        }
    }
    out.append(name);
    out
}

/// Whether a file or directory can have a name.
pub fn can_be_name(style: Style, name: &str) -> (r: bool)
    ensures
        r == is_file_name(style, name@),
{
    proof {
        reveal_strlit(".");
        reveal_strlit("..");
        assert("."@ =~= seq!['.']);
        assert(".."@ =~= seq!['.', '.']);
    }
    let p = chars_of(name);
    if p.len() == 0 || same(name, ".") || same(name, "..") {
        return false;
    }
    if style == Style::Windows && has_drive(&p, 0) {
        return false;
    }
    let mut i: usize = 0;
    while i < p.len()
        invariant
            i <= p@.len(),
            p@ == name@,
            forall|k: int| 0 <= k < i ==> !is_separator(style, #[trigger] p@[k]),
        decreases p@.len() - i,
    {
        if separates(style, p[i]) {
            assert(is_separator(style, name@[i as int]));
            return false;
        }
        i += 1;
    }
    true
}

/// What stands around the start of the last component: a separator before it,
/// where it is not the first one, and none in it.
pub proof fn lemma_last_component(shape: Shape, p: Seq<char>)
    requires
        shape.head <= p.len(),
    ensures
        shape.head <= last_start(shape, p) <= p.len(),
        last_start(shape, p) > shape.head ==> splits(
            shape.style,
            shape.verbatim,
            p[last_start(shape, p) - 1],
        ),
        forall|i: int|
            last_start(shape, p) <= i < p.len() ==> !splits(
                shape.style,
                shape.verbatim,
                #[trigger] p[i],
            ),
    decreases p.len(),
{
    if p.len() > shape.head && !splits(shape.style, shape.verbatim, p.last()) {
        let q = p.drop_last();
        lemma_last_component(shape, q);
        assert forall|i: int| last_start(shape, p) <= i < p.len() implies !splits(
            shape.style,
            shape.verbatim,
            #[trigger] p[i],
        ) by {
            if i < q.len() {
                assert(p[i] == q[i]);
            }
        }
    }
}

/// A component starts at position `i` of the body.
pub open spec fn starts_component(shape: Shape, p: Seq<char>, i: int) -> bool {
    i == shape.head || (shape.head < i <= p.len() && splits(shape.style, shape.verbatim, p[i - 1]))
}

/// The component that starts at position `i` means nothing.
pub open spec fn is_void_at(shape: Shape, p: Seq<char>, i: int) -> bool {
    ||| i == p.len()
    ||| splits(shape.style, shape.verbatim, p[i])
    ||| p[i] == '.' && (i + 1 == p.len() || splits(shape.style, shape.verbatim, p[i + 1]))
}

/// All that settling takes away means nothing, and it starts at a separator.
pub proof fn lemma_settled_rest(shape: Shape, p: Seq<char>)
    requires
        shape.head <= p.len(),
    ensures
        ({
            let k = settled(shape, p).len();
            &&& forall|i: int|
                #![trigger is_void_at(shape, p, i)]
                k <= i <= p.len() && (k > shape.head ==> k < i) && starts_component(shape, p, i)
                    ==> is_void_at(shape, p, i)
            &&& shape.head < k < p.len() ==> splits(shape.style, shape.verbatim, p[k as int])
            &&& k > shape.head ==> !is_void(shape, last_component(shape, settled(shape, p)))
        }),
    decreases p.len(),
{
    lemma_last_component(shape, p);
    lemma_settled(shape, p);
    let k = settled(shape, p).len();
    let last = last_component(shape, p);
    let start = last_start(shape, p) as int;
    if p.len() > shape.head && is_void(shape, last) {
        let q = cut(shape, p);
        lemma_settled(shape, q);
        lemma_settled_rest(shape, q);
        assert(settled(shape, p) == settled(shape, q));
        assert forall|i: int|
            #![trigger is_void_at(shape, p, i)]
            k <= i <= p.len() && (k > shape.head ==> k < i) && starts_component(
                shape,
                p,
                i,
            ) implies is_void_at(shape, p, i) by {
            if i < start {
                assert(starts_component(shape, q, i));
                assert(is_void_at(shape, q, i));
            } else {
                if i > start {
                    assert(!splits(shape.style, shape.verbatim, p[i - 1]));
                }
                assert(i == start);
                if last.len() > 0 {
                    assert(last[0] == p[i]);
                    assert(last.len() == 1);
                }
            }
        }
        if shape.head < k {
            assert(start > shape.head);
            if k == q.len() {
                assert(p[k as int] == p[start - 1]);
            } else {
                assert(p[k as int] == q[k as int]);
            }
        }
    }
}

/// Settling twice is settling once.
pub proof fn lemma_settled_twice(shape: Shape, p: Seq<char>)
    requires
        shape.head <= p.len(),
    ensures
        settled(shape, settled(shape, p)) == settled(shape, p),
    decreases p.len(),
{
    lemma_last_start(shape, p);
    if p.len() > shape.head && is_void(shape, last_component(shape, p)) {
        lemma_settled_twice(shape, cut(shape, p));
    }
}

/// Behind a separator, a component without separators is the last one.
proof fn lemma_last_start_behind(shape: Shape, front: Seq<char>, name: Seq<char>)
    requires
        shape.head <= front.len(),
        front.len() == shape.head || splits(shape.style, shape.verbatim, front.last()),
        forall|i: int|
            0 <= i < name.len() ==> !splits(shape.style, shape.verbatim, #[trigger] name[i]),
    ensures
        last_start(shape, front + name) == front.len(),
    decreases name.len(),
{
    let p = front + name;
    if name.len() > 0 {
        assert(p.last() == name[name.len() - 1]);
        assert(p.drop_last() =~= front + name.drop_last());
        lemma_last_start_behind(shape, front, name.drop_last());
    } else {
        assert(p =~= front);
    }
}

/// No backslash follows another one from position `from` on.
pub open spec fn is_single(s: Seq<char>, from: int) -> bool {
    forall|i: int, j: int|
        from <= i && j == i + 1 && j < s.len() ==> !(#[trigger] s[i] == '\\' && #[trigger] s[j]
            == '\\')
}

/// Squeezed text starts with a backslash and holds none that follows another.
pub proof fn lemma_squeezed(s: Seq<char>)
    ensures
        squeezed(s).len() > 0,
        squeezed(s)[0] == '\\',
        is_single(squeezed(s), 0),
        is_single(closed(squeezed(s)), 0),
        closed(squeezed(s)).last() == '\\',
    decreases s.len(),
{
    if s.len() > 0 {
        lemma_squeezed(s.drop_last());
    }
}

/// Text without doubled backslashes stays as it is.
proof fn lemma_squeezed_same(s: Seq<char>)
    requires
        is_single(seq!['\\'] + s, 0),
    ensures
        squeezed(s) == seq!['\\'] + s,
    decreases s.len(),
{
    let t = seq!['\\'] + s;
    if s.len() > 0 {
        let init = s.drop_last();
        assert(seq!['\\'] + init =~= t.drop_last());
        assert(is_single(seq!['\\'] + init, 0)) by {
            assert forall|i: int, j: int|
                0 <= i && j == i + 1 && j < t.drop_last().len() implies !(#[trigger] t.drop_last()[i]
                == '\\' && #[trigger] t.drop_last()[j] == '\\') by {
                assert(t[i] == t.drop_last()[i] && t[j] == t.drop_last()[j]);
            }
        }
        lemma_squeezed_same(init);
        assert(t[t.len() - 2] == squeezed(init).last());
        assert(t[t.len() - 1] == s.last());
        assert(squeezed(s) =~= t);
    } else {
        assert(squeezed(s) =~= t);
    }
}

/// Squeezing goes on behind text as it does behind that text squeezed.
pub proof fn lemma_squeezed_add(s: Seq<char>, last: Seq<char>)
    requires
        !last.contains('\\'),
    ensures
        squeezed(s + last) == squeezed(s) + last,
        squeezed(s.push('\\')) == closed(squeezed(s)),
        closed(closed(squeezed(s))) == closed(squeezed(s)),
    decreases last.len(),
{
    assert(s.push('\\').drop_last() =~= s);
    if last.len() == 0 {
        assert(s + last =~= s);
        assert(squeezed(s) + last =~= squeezed(s));
    } else {
        let init = last.drop_last();
        assert(!init.contains('\\')) by {
            assert forall|i: int| 0 <= i < init.len() implies init[i] != '\\' by {
                assert(init[i] == last[i]);
                assert(last.contains(last[i]));
            }
        }
        lemma_squeezed_add(s, init);
        assert((s + last).drop_last() =~= s + init);
        assert(last.contains(last[last.len() - 1]));
        assert(squeezed(s + last) =~= squeezed(s) + last);
    }
}

proof fn lemma_squeezed_grows(s: Seq<char>, k: int)
    requires
        0 <= k <= s.len(),
    ensures
        squeezed(s.take(k)).len() <= squeezed(s).len(),
    decreases s.len(),
{
    if k == s.len() {
        assert(s.take(k) =~= s);
    } else {
        lemma_squeezed_grows(s.drop_last(), k);
        assert(s.drop_last().take(k) =~= s.take(k));
    }
}

/// A directory's path is not that of something in it.
pub proof fn lemma_base_is_not_below(style: Style, base: Seq<char>, rest: Seq<char>)
    requires
        rest.len() > 0,
        rest[0] != '\\',
    ensures
        base != opened(style, base) + rest,
{
    let x = prefix_of(style, base);
    if x.verbatim && base == opened(style, base) + rest {
        let body = base.skip(head_len(style, base) as int);
        let v = closed(squeezed(body));
        let n = v.len() as int;
        lemma_head(style, base);
        lemma_squeezed(body);
        assert(base[x.len as int] == v[0]);
        assert(seq!['\\'] + body =~= v + rest);
        let t = v + rest;
        assert(body.take(n - 1) =~= v.skip(1)) by {
            assert forall|i: int| 0 <= i < n - 1 implies body[i] == v[i + 1] by {
                assert((seq!['\\'] + body)[i + 1] == t[i + 1]);
            }
        }
        assert(seq!['\\'] + v.skip(1) =~= v);
        lemma_squeezed_same(v.skip(1));
        assert((seq!['\\'] + body)[n] == t[n]);
        assert(body.take(n).drop_last() =~= body.take(n - 1));
        assert(body.take(n).last() == rest[0]);
        lemma_squeezed_grows(body, n);
    }
}

/// Separators at the end of a verbatim path mean nothing before a name.
pub proof fn lemma_settled_squeezed(shape: Shape, p: Seq<char>)
    requires
        shape.verbatim,
        shape.head <= p.len(),
    ensures
        closed(squeezed(p.skip(shape.head as int))) == closed(
            squeezed(settled(shape, p).skip(shape.head as int)),
        ),
    decreases p.len(),
{
    let h = shape.head as int;
    lemma_last_component(shape, p);
    if p.len() > h && is_void(shape, last_component(shape, p)) {
        let q = cut(shape, p);
        lemma_settled_squeezed(shape, q);
        assert(p.skip(h) =~= q.skip(h).push('\\'));
        lemma_squeezed_add(q.skip(h), seq![]);
    }
}

/// A verbatim prefix starts with four characters of its own.
pub proof fn lemma_verbatim_len(style: Style, p: Seq<char>)
    requires
        prefix_of(style, p).verbatim,
    ensures
        style == Style::Windows,
        4 <= prefix_of(style, p).len <= p.len(),
{
    reveal(windows_prefix);
    lemma_component_end(p, 4, true);
    lemma_component_end(p, 8, true);
    lemma_head(style, p);
}

proof fn lemma_component_end_bound(p: Seq<char>, from: nat, verbatim: bool, i: nat)
    requires
        from <= i < p.len(),
        splits(Style::Windows, verbatim, p[i as int]),
    ensures
        component_end(p, from, verbatim) <= i,
    decreases i - from,
{
    if from < i && !splits(Style::Windows, verbatim, p[from as int]) {
        lemma_component_end_bound(p, from + 1, verbatim, i);
    }
}

/// A path that goes on behind a verbatim prefix with a backslash is verbatim, and
/// its prefix ends there or further on, at a backslash or at the end.
proof fn lemma_verbatim_extended(base: Seq<char>, rest: Seq<char>)
    requires
        windows_prefix(base).verbatim,
        rest.len() > 0,
        rest[0] == '\\',
    ensures
        ({
            let x = windows_prefix(base);
            let p = base.take(x.len as int) + rest;
            let y = windows_prefix(p);
            &&& y.verbatim
            &&& x.len <= y.len <= p.len()
            &&& y.len < p.len() ==> p[y.len as int] == '\\'
        }),
{
    let x = windows_prefix(base);
    let k = x.len;
    let p = base.take(k as int) + rest;
    lemma_head(Style::Windows, base);
    lemma_head(Style::Windows, p);
    reveal(windows_prefix);
    lemma_component_end(base, 4, true);
    lemma_component_end(base, 8, true);
    assert(k >= 4);
    assert(p.take(k as int) =~= base.take(k as int));
    assert forall|i: int| 0 <= i < k implies p[i] == base[i] by {}
    assert(p[k as int] == '\\');
    lemma_component_end_take(base, 4, true, k);
    lemma_component_end_take(p, 4, true, k);
    lemma_component_end_bound(p, 4, true, k);
    let server = component_end(p, 8, true);
    if component_end(p, 4, true) < p.len() {
        lemma_component_stop(p, 4, true);
    }
    lemma_component_end(p, 8, true);
    if server < p.len() {
        lemma_component_stop(p, 8, true);
    }
    lemma_component_end(p, server + 1, true);
    if component_end(p, server + 1, true) < p.len() {
        lemma_component_stop(p, server + 1, true);
    }
    lemma_component_end_take(base, 8, true, k);
    lemma_component_end_take(p, 8, true, k);
    let base_server = component_end(base, 8, true);
    lemma_component_end_take(base, base_server + 1, true, k);
    lemma_component_end_take(p, base_server + 1, true, k);
    reveal_with_fuel(component_end, 5);
}

/// A verbatim path without doubled backslashes behind its prefix, and with a name
/// at its end, is followed by a backslash.
proof fn lemma_opened_verbatim(p: Seq<char>)
    requires
        windows_prefix(p).verbatim,
        windows_prefix(p).len < p.len() ==> p[windows_prefix(p).len as int] == '\\' && p.last()
            != '\\',
        is_single(p, windows_prefix(p).len as int),
    ensures
        opened(Style::Windows, p) == p.push('\\'),
{
    let y = windows_prefix(p);
    lemma_head(Style::Windows, p);
    if y.len == p.len() {
        assert(p.skip(y.len as int) =~= seq![]);
        assert(opened(Style::Windows, p) =~= p.push('\\'));
    } else {
        let body = p.skip(y.len as int + 1);
        let tail = p.skip(y.len as int);
        assert(seq!['\\'] + body =~= tail);
        assert(is_single(tail, 0)) by {
            assert forall|i: int, j: int|
                0 <= i && j == i + 1 && j < tail.len() implies !(#[trigger] tail[i] == '\\'
                && #[trigger] tail[j] == '\\') by {
                assert(tail[i] == p[y.len + i] && tail[j] == p[y.len + j]);
            }
        }
        lemma_squeezed_same(body);
        assert(tail.last() == p.last());
        assert(opened(Style::Windows, p) =~= p.push('\\'));
    }
}

/// A verbatim path with a name taken below it is followed by a backslash, before
/// another name.
pub proof fn lemma_opened_below_verbatim(base: Seq<char>, name: Seq<char>)
    requires
        windows_prefix(base).verbatim,
        name.len() > 0,
        !name.contains('\\'),
    ensures
        ({
            let p = joined(Style::Windows, base, name);
            &&& windows_prefix(p).verbatim
            &&& opened(Style::Windows, p) == p.push('\\')
        }),
{
    let x = windows_prefix(base);
    let body = base.skip(head_len(Style::Windows, base) as int);
    let front = closed(squeezed(body));
    let rest = front + name;
    let p = joined(Style::Windows, base, name);
    lemma_squeezed(body);
    lemma_head(Style::Windows, base);
    lemma_verbatim_extended(base, rest);
    assert(p =~= base.take(x.len as int) + rest);
    assert forall|i: int| 0 <= i < name.len() implies name[i] != '\\' by {
        assert(name.contains(name[i]));
    }
    let y = windows_prefix(p);
    assert(is_single(p, y.len as int)) by {
        assert forall|i: int, j: int| y.len <= i && j == i + 1 && j < p.len() implies !(#[trigger] p[i]
            == '\\' && #[trigger] p[j] == '\\') by {
            let a = i - x.len;
            assert(p[i] == rest[a] && p[j] == rest[a + 1]);
            if a + 1 < front.len() {
                assert(rest[a] == front[a] && rest[a + 1] == front[a + 1]);
            } else {
                assert(rest[a + 1] == name[a + 1 - front.len()]);
            }
        }
    }
    assert(p.last() == name[name.len() - 1]);
    lemma_opened_verbatim(p);
}

/// A name can start a verbatim path only as the whole of its prefix, and it is
/// followed by a backslash, before another name.
pub proof fn lemma_opened_new_verbatim(base: Seq<char>, name: Seq<char>)
    requires
        !windows_prefix(base).verbatim,
        is_file_name(Style::Windows, name),
        windows_prefix(joined(Style::Windows, base, name)).verbatim,
    ensures
        opened(Style::Windows, joined(Style::Windows, base, name)) == joined(
            Style::Windows,
            base,
            name,
        ).push('\\'),
{
    let front = opened(Style::Windows, base);
    let p = joined(Style::Windows, base, name);
    let y = windows_prefix(p);
    lemma_head(Style::Windows, p);
    reveal(windows_prefix);
    assert forall|i: int| 0 <= i < base.len() implies p[i] == base[i] by {}
    assert forall|i: int| front.len() <= i < p.len() implies !is_separator(
        Style::Windows,
        #[trigger] p[i],
    ) by {
        assert(p[i] == name[i - front.len()]);
        assert(name.contains(name[i - front.len()]));
    }
    assert(p[3] == '\\');
    assert(front.len() == 4);
    assert(p[4] == name[0]);
    assert(name.len() > 1 ==> p[5] == name[1]);
    let end = component_end(p, 4, true);
    lemma_component_end(p, 4, true);
    if end < p.len() {
        lemma_component_stop(p, 4, true);
    }
    assert(end == p.len());
    assert(y.len == p.len());
    lemma_opened_verbatim(p);
}

/// A directory whose verbatim path is put together anew, without a separator at its
/// end. Other paths stay as they are.
pub open spec fn rebuilt(style: Style, dir: Seq<char>) -> Seq<char> {
    let front = opened(style, dir);
    if !prefix_of(style, dir).verbatim {
        dir
    } else if front.len() > head_len(style, dir) {
        front.drop_last()
    } else {
        front
    }
}

/// A name joined to a directory is the final component of the path, and the
/// directory is the path's parent, where the path has the head of the directory.
pub proof fn law_joined_parts(style: Style, dir: Seq<char>, name: Seq<char>)
    requires
        name.len() > 0,
        name != seq!['.'],
        name != seq!['.', '.'],
        forall|i: int|
            0 <= i < name.len() ==> !splits(
                style,
                prefix_of(style, dir).verbatim,
                #[trigger] name[i],
            ),
        prefix_of(style, joined(style, dir, name)) == prefix_of(style, dir),
        has_root(style, joined(style, dir, name)) == has_root(style, dir),
    ensures
        name_of(style, joined(style, dir, name)) == Some(name),
        parent_of(style, joined(style, dir, name)) == Some(
            settled(shape_of(style, dir), rebuilt(style, dir)),
        ),
{
    let x = prefix_of(style, dir);
    let front = opened(style, dir);
    let p = joined(style, dir, name);
    let shape = shape_of(style, p);
    lemma_head(style, dir);
    lemma_head(style, p);
    assert(p[front.len() as int] == name[0]);
    if x.verbatim {
        lemma_squeezed(dir.skip(head_len(style, dir) as int));
        assert(front.last() == '\\');
        assert(p[x.len as int] == front[x.len as int]);
        assert(front.len() >= shape.head);
    } else {
        assert forall|i: int| 0 <= i < dir.len() implies p[i] == dir[i] by {}
        if dir.len() == x.len {
            if has_leading_dot(style, p) {
                if name.len() == 1 {
                    assert(name =~= seq!['.']);
                }
                assert(p[x.len as int + 1] == name[1]);
            }
        } else if dir.len() == x.len + 1 && !has_root(style, dir) && dir.last() == '.' {
            assert(front.len() == dir.len() + 1);
        }
    }
    assert(has_leading_dot(style, p) == has_leading_dot(style, dir));
    assert(shape == shape_of(style, dir));
    lemma_last_start_behind(shape, front, name);
    assert(last_component(shape, p) =~= name);
    assert(settled(shape, p) == p);
    if front.len() > shape.head {
        assert(cut(shape, p) =~= front.drop_last());
        if !x.verbatim {
            if front.len() == dir.len() {
                assert(last_start(shape, dir) == dir.len());
                assert(cut(shape, dir) =~= dir.drop_last());
            } else {
                assert(front.drop_last() =~= dir);
            }
        }
    } else {
        assert(cut(shape, p) =~= front);
        assert(!x.verbatim ==> front.len() == dir.len());
    }
}

/// The prefix of a Windows path names a server (`\\?\UNC\`) and no share.
pub open spec fn lacks_share(p: Seq<char>) -> bool {
    &&& windows_prefix(p).verbatim
    &&& char_at(p, 4, 'U') && char_at(p, 5, 'N') && char_at(p, 6, 'C') && sep_at(p, 7)
    &&& windows_prefix(p).len == component_end(p, 8, true)
}

/// A path has the prefix of a part of it that goes on behind that prefix.
pub proof fn lemma_prefix_found(style: Style, p: Seq<char>, k: nat)
    requires
        k <= p.len(),
        0 < prefix_of(style, p.take(k as int)).len < k,
        !lacks_share(p.take(k as int)),
    ensures
        prefix_of(style, p) == prefix_of(style, p.take(k as int)),
{
    reveal(windows_prefix);
    let q = p.take(k as int);
    assert forall|i: int| 0 <= i < k implies q[i] == p[i] by {}
    lemma_component_end_take(p, 2, false, k);
    lemma_component_end_take(p, component_end(p, 2, false) + 1, false, k);
    lemma_component_end_take(p, k + 1, false, k);
    lemma_component_end_take(p, 4, false, k);
    lemma_component_end_take(p, 4, true, k);
    lemma_component_end_take(p, 8, true, k);
    lemma_component_end_take(p, component_end(p, 8, true) + 1, true, k);
    lemma_component_end_take(p, k + 1, true, k);
    lemma_component_end(p, 2, false);
    lemma_component_end(p, 4, false);
    lemma_component_end(p, 4, true);
    lemma_component_end(p, 8, true);
    let x = windows_prefix(q);
    assert(forall|i: int, c: char| 0 <= i < k ==> char_at(q, i, c) == char_at(p, i, c));
    assert(forall|i: int| 0 <= i < k ==> sep_at(q, i) == sep_at(p, i));
    if sep_at(q, 0) && sep_at(q, 1) {
        if char_at(q, 0, '\\') && char_at(q, 1, '\\') && char_at(q, 2, '?') && char_at(q, 3, '\\') {
            let is_unc = char_at(q, 4, 'U') && char_at(q, 5, 'N') && char_at(q, 6, 'C')
                && sep_at(q, 7);
            let is_drive = drive_at(q, 4) && (q.len() == 6 || sep_at(q, 6));
            if !is_unc && !is_drive {
                reveal_with_fuel(component_end, 5);
                assert(windows_prefix(p) == x);
            }
        }
    }
}

/// A verbatim prefix that is not followed by a backslash is a drive, and stays the
/// prefix before one.
pub proof fn lemma_verbatim_drive_found(p: Seq<char>, q: Seq<char>)
    requires
        windows_prefix(p).verbatim,
        windows_prefix(p).len < p.len(),
        p[windows_prefix(p).len as int] != '\\',
        windows_prefix(p).len < q.len(),
        q[windows_prefix(p).len as int] == '\\',
        q.take(windows_prefix(p).len as int) == p.take(windows_prefix(p).len as int),
    ensures
        windows_prefix(q) == windows_prefix(p),
{
    let x = windows_prefix(p);
    reveal(windows_prefix);
    lemma_component_end(p, 4, true);
    lemma_component_end(p, 8, true);
    let server = component_end(p, 8, true);
    lemma_component_end(p, server + 1, true);
    if x.len == component_end(p, 4, true) {
        lemma_component_stop(p, 4, true);
    } else if x.len == server {
        lemma_component_stop(p, 8, true);
    } else if x.len == component_end(p, server + 1, true) {
        lemma_component_stop(p, server + 1, true);
    }
    assert(x.len == 6);
    assert forall|i: int| 0 <= i < 6 implies q[i] == p[i] by {
        assert(q.take(6)[i] == p.take(6)[i]);
    }
}

/// A Windows path that starts with a drive has it as its prefix.
pub proof fn lemma_drive_found(style: Style, p: Seq<char>)
    requires
        style == Style::Windows,
        drive_at(p, 0),
    ensures
        prefix_of(style, p) == (Prefix { len: 2, verbatim: false, drive: true }),
{
    reveal(windows_prefix);
}

/// A path that starts neither with two separators nor with a drive has no prefix.
pub proof fn lemma_no_prefix(style: Style, p: Seq<char>)
    requires
        !(sep_at(p, 0) && sep_at(p, 1)),
        !drive_at(p, 0),
    ensures
        prefix_of(style, p) == no_prefix(),
{
    reveal(windows_prefix);
}

/// Separators at the end of a path mean nothing.
proof fn lemma_settled_tail(shape: Shape, p: Seq<char>, tail: Seq<char>)
    requires
        shape.head <= p.len(),
        forall|i: int| 0 <= i < tail.len() ==> splits(shape.style, shape.verbatim, #[trigger] tail[i]),
    ensures
        settled(shape, p + tail) == settled(shape, p),
    decreases tail.len(),
{
    let all = p + tail;
    if tail.len() == 0 {
        assert(all =~= p);
    } else {
        let less = tail.drop_last();
        assert forall|i: int| 0 <= i < less.len() implies splits(
            shape.style,
            shape.verbatim,
            #[trigger] less[i],
        ) by {
            assert(less[i] == tail[i]);
        }
        lemma_settled_tail(shape, p, less);
        assert(all.last() == tail[tail.len() - 1]);
        assert(last_start(shape, all) == all.len());
        assert(last_component(shape, all) =~= seq![]);
        assert(cut(shape, all) =~= p + less);
    }
}

/// What stands behind the last separator of a path that is not at its end, and is
/// neither `.` nor `..`, is the name in it. What stands before that separator is its
/// parent, without what means nothing at its end.
pub proof fn law_name_at_the_end(
    style: Style,
    front: Seq<char>,
    separator: char,
    name: Seq<char>,
    tail: Seq<char>,
)
    requires
        ({
            let p = front.push(separator) + name + tail;
            let verbatim = prefix_of(style, p).verbatim;
            &&& splits(style, verbatim, separator)
            &&& forall|i: int| 0 <= i < tail.len() ==> splits(style, verbatim, #[trigger] tail[i])
            &&& forall|i: int| 0 <= i < name.len() ==> !splits(style, verbatim, #[trigger] name[i])
            &&& head_len(style, p) <= front.len() + 1
        }),
        name.len() > 0,
        name != seq!['.'],
        name != seq!['.', '.'],
    ensures
        ({
            let p = front.push(separator) + name + tail;
            let shape = shape_of(style, p);
            &&& name_of(style, p) == Some(name)
            &&& parent_of(style, p) == Some(
                settled(
                    shape,
                    if shape.head <= front.len() {
                        front
                    } else {
                        front.push(separator)
                    },
                ),
            )
        }),
{
    let p = front.push(separator) + name + tail;
    let shape = shape_of(style, p);
    let q = front.push(separator) + name;
    lemma_settled_tail(shape, q, tail);
    lemma_last_start_behind(shape, front.push(separator), name);
    assert(last_component(shape, q) =~= name);
    assert(settled(shape, q) == q);
    if shape.head <= front.len() {
        assert(cut(shape, q) =~= front);
    } else {
        assert(cut(shape, q) =~= front.push(separator));
    }
}

/// Every character is a slash.
pub open spec fn all_slashes(s: Seq<char>) -> bool {
    forall|i: int| 0 <= i < s.len() ==> #[trigger] s[i] == '/'
}

/// The parts of a Unix path, whatever stands in front: its name is what stands behind
/// the last slash, slashes at its end aside, and its parent what stands before that
/// slash. A name alone has the empty parent, and one right below the root the root.
pub proof fn law_unix_parts(a: Seq<char>, dir: Seq<char>, name: Seq<char>, tail: Seq<char>)
    requires
        is_plain(Style::Unix, dir),
        is_plain(Style::Unix, name),
        all_slashes(tail),
    ensures
        name_of(Style::Unix, a.push('/') + name + tail) == Some(name),
        parent_of(Style::Unix, (a.push('/') + dir).push('/') + name + tail) == Some(
            a.push('/') + dir,
        ),
        parent_of(Style::Unix, seq!['/'] + name + tail) == Some(seq!['/']),
        name_of(Style::Unix, name + tail) == Some(name),
        parent_of(Style::Unix, name + tail) == Some(Seq::<char>::empty()),
{
    let style = Style::Unix;
    law_name_at_the_end(style, a, '/', name, tail);
    let front = a.push('/') + dir;
    let p = front.push('/') + name + tail;
    law_name_at_the_end(style, front, '/', name, tail);
    let shape = shape_of(style, p);
    lemma_last_start_behind(shape, a.push('/'), dir);
    assert(last_component(shape, front) =~= dir);
    assert(settled(shape, front) == front);
    let none = Seq::<char>::empty();
    law_name_at_the_end(style, none, '/', name, tail);
    let top = none.push('/') + name + tail;
    assert(top =~= seq!['/'] + name + tail);
    assert(top[0] == '/');
    assert(none.push('/') =~= seq!['/']);
    let root = shape_of(style, top);
    assert(root.head == 1);
    assert(settled(root, seq!['/']) == seq!['/']);
    // A name alone.
    let bare = name + tail;
    let own = shape_of(style, bare);
    assert(bare[0] == name[0]);
    assert(!is_separator(style, name[0]));
    if has_leading_dot(style, bare) {
        if name.len() == 1 {
            assert(name =~= seq!['.']);
        } else {
            assert(bare[1] == name[1]);
            assert(!is_separator(style, name[1]));
        }
    }
    assert(own.head == 0);
    lemma_settled_tail(own, name, tail);
    lemma_last_start_behind(own, none, name);
    assert(none + name =~= name);
    assert(last_component(own, name) =~= name);
    assert(settled(own, name) == name);
    assert(cut(own, name) =~= none);
    assert(settled(own, none) == none);
}

/// How a name is joined to a directory: on Unix with a slash between them, unless the
/// directory is empty or ends with one. On Windows likewise with a backslash, unless
/// the directory ends with either separator or is a bare drive; there the path of a
/// directory in verbatim form is not kept as it is.
pub proof fn law_joined(base: Seq<char>, name: Seq<char>)
    ensures
        joined(Style::Unix, base, name) == if base.len() == 0 || base.last() == '/' {
            base + name
        } else {
            base.push('/') + name
        },
        name.is_suffix_of(joined(Style::Windows, base, name)),
        !windows_prefix(base).verbatim ==> joined(Style::Windows, base, name) == if base.len() == 0
            || base.last() == '/' || base.last() == '\\' || (base.len() == 2 && drive_at(base, 0)) {
            base + name
        } else {
            base.push('\\') + name
        },
{
    let path = joined(Style::Windows, base, name);
    assert(path.subrange(path.len() - name.len(), path.len() as int) =~= name);
    lemma_head(Style::Windows, base);
    if base.len() == 2 && drive_at(base, 0) {
        lemma_drive_found(Style::Windows, base);
    }
}

/// The names that a file or directory can have.
pub proof fn law_file_names(name: Seq<char>)
    ensures
        is_file_name(Style::Unix, name) <==> {
            &&& name.len() > 0
            &&& !(name.len() == 1 && name[0] == '.')
            &&& !(name.len() == 2 && name[0] == '.' && name[1] == '.')
            &&& !name.contains('/')
        },
        is_file_name(Style::Windows, name) <==> {
            &&& is_file_name(Style::Unix, name)
            &&& !name.contains('\\')
            &&& !(name.len() > 1 && name[1] == ':' && ('a' <= name[0] <= 'z' || 'A' <= name[0]
                <= 'Z'))
        },
{
    if name.len() == 1 && name[0] == '.' {
        assert(name =~= seq!['.']);
    }
    if name.len() == 2 && name[0] == '.' && name[1] == '.' {
        assert(name =~= seq!['.', '.']);
    }
    if !name.contains('/') {
        assert forall|i: int| 0 <= i < name.len() implies !is_separator(
            Style::Unix,
            #[trigger] name[i],
        ) by {
            assert(name.contains(name[i]));
        }
        if !name.contains('\\') {
            assert forall|i: int| 0 <= i < name.len() implies !is_separator(
                Style::Windows,
                #[trigger] name[i],
            ) by {
                assert(name.contains(name[i]));
            }
        }
    }
    if is_plain(Style::Windows, name) {
        assert forall|i: int| 0 <= i < name.len() implies !is_separator(
            Style::Unix,
            #[trigger] name[i],
        ) by {
            assert(!is_separator(Style::Windows, name[i]));
        }
    }
}

/// A component ends where a separator or the end of the path follows.
proof fn lemma_component_ends(
    front: Seq<char>,
    component: Seq<char>,
    rest: Seq<char>,
    verbatim: bool,
    at: nat,
)
    requires
        at <= component.len(),
        forall|i: int|
            0 <= i < component.len() ==> !is_separator(Style::Windows, #[trigger] component[i]),
        rest.len() == 0 || rest[0] == '\\',
    ensures
        component_end(front + component + rest, front.len() + at, verbatim) == front.len()
            + component.len(),
    decreases component.len() - at,
{
    let p = front + component + rest;
    let from = front.len() + at;
    if at < component.len() {
        assert(p[from as int] == component[at as int]);
        assert(!is_separator(Style::Windows, component[at as int]));
        lemma_component_ends(front, component, rest, verbatim, at + 1);
    } else if rest.len() > 0 {
        assert(p[from as int] == rest[0]);
    }
}

/// The prefixes of Windows paths: a drive, a server and its share, a device, and in
/// verbatim form a drive, a server and its share, or a single component. What follows
/// them is not part of them. Paths of any other form have none.
pub proof fn law_windows_prefixes(a: Seq<char>, b: Seq<char>, drive: char, rest: Seq<char>)
    requires
        is_plain(Style::Windows, a),
        is_plain(Style::Windows, b),
        'a' <= drive <= 'z' || 'A' <= drive <= 'Z',
        rest.len() == 0 || rest[0] == '\\',
    ensures
        windows_prefix(seq![drive, ':'] + rest) == (Prefix { len: 2, verbatim: false, drive: true }),
        a != seq!['?'] ==> windows_prefix(seq!['\\', '\\'] + a + (seq!['\\'] + b + rest)) == (
        Prefix { len: 3 + a.len() + b.len(), verbatim: false, drive: false }),
        windows_prefix(seq!['\\', '\\', '.', '\\'] + a + rest) == (Prefix {
            len: 4 + a.len(),
            verbatim: false,
            drive: false,
        }),
        windows_prefix(seq!['\\', '\\', '?', '\\'] + (seq![drive, ':'] + rest)) == (Prefix {
            len: 6,
            verbatim: true,
            drive: false,
        }),
        windows_prefix(
            seq!['\\', '\\', '?', '\\', 'U', 'N', 'C', '\\'] + a + (seq!['\\'] + b + rest),
        ) == (Prefix { len: 9 + a.len() + b.len(), verbatim: true, drive: false }),
        a != seq!['U', 'N', 'C'] && !drive_at(a, 0) ==> windows_prefix(
            seq!['\\', '\\', '?', '\\'] + a + rest,
        ) == (Prefix { len: 4 + a.len(), verbatim: true, drive: false }),
        windows_prefix(seq!['\\'] + a + rest) == no_prefix(),
        !drive_at(a, 0) ==> windows_prefix(a + rest) == no_prefix(),
{
    reveal(windows_prefix);
    assert(!is_separator(Style::Windows, a[0]) && !is_separator(Style::Windows, b[0]));
    // A server and its share.
    let two = seq!['\\', '\\'];
    let share = seq!['\\'] + b + rest;
    let unc = two + a + share;
    lemma_component_ends(two, a, share, false, 0);
    let before = two + a + seq!['\\'];
    lemma_component_ends(before, b, rest, false, 0);
    assert(before + b + rest =~= unc);
    assert(unc[2] == a[0]);
    assert(unc[2 + a.len() as int] == '\\');
    if a.len() == 1 {
        assert(a =~= seq![a[0]]);
    } else {
        assert(unc[3] == a[1]);
        assert(!is_separator(Style::Windows, a[1]));
    }
    // A device.
    let device = seq!['\\', '\\', '.', '\\'];
    lemma_component_ends(device, a, rest, false, 0);
    let named = device + a + rest;
    assert(named[2] == '.' && named[3] == '\\');
    // Verbatim forms.
    let four = seq!['\\', '\\', '?', '\\'];
    let disk = four + (seq![drive, ':'] + rest);
    assert(disk[4] == drive && disk[5] == ':');
    if rest.len() > 0 {
        assert(disk[6] == rest[0]);
    }
    let eight = seq!['\\', '\\', '?', '\\', 'U', 'N', 'C', '\\'];
    let far = eight + a + share;
    lemma_component_ends(eight, a, share, true, 0);
    let behind = eight + a + seq!['\\'];
    lemma_component_ends(behind, b, rest, true, 0);
    assert(behind + b + rest =~= far);
    let plain = four + a + rest;
    lemma_component_ends(four, a, rest, true, 0);
    assert forall|i: int| 0 <= i < a.len() implies plain[4 + i] == a[i]
        && !is_separator(Style::Windows, #[trigger] a[i]) by {}
    if a.len() == 3 && a[0] == 'U' && a[1] == 'N' && a[2] == 'C' {
        assert(a =~= seq!['U', 'N', 'C']);
    }
    if sep_at(plain, 7) && a.len() >= 3 {
        assert(a.len() == 3) by {
            if a.len() > 3 {
                assert(plain[7] == a[3]);
            }
        }
    }
    if a.len() < 3 && rest.len() > 0 {
        assert(plain[4 + a.len() as int] == '\\');
    }
    // No prefix.
    let rooted = seq!['\\'] + a + rest;
    assert(rooted[1] == a[0]);
    let relative = a + rest;
    assert(relative[0] == a[0]);
    if relative.len() > 1 {
        if a.len() > 1 {
            assert(relative[1] == a[1]);
        } else {
            assert(relative[1] == rest[0]);
        }
    }
}

/// Dots in a Unix path: a `.` at its end means nothing, a `..` at its end is no name
/// but a component to leave out for the parent. A path of slashes only, or an empty
/// one, has neither name nor parent.
pub proof fn law_unix_dots(a: Seq<char>, dir: Seq<char>, tail: Seq<char>)
    requires
        is_plain(Style::Unix, dir),
        all_slashes(tail),
    ensures
        name_of(Style::Unix, (a.push('/') + dir).push('/') + seq!['.'] + tail) == Some(dir),
        name_of(Style::Unix, a.push('/') + seq!['.', '.'] + tail) is None,
        parent_of(Style::Unix, (a.push('/') + dir).push('/') + seq!['.', '.'] + tail) == Some(
            a.push('/') + dir,
        ),
        name_of(Style::Unix, tail) is None,
        parent_of(Style::Unix, tail) is None,
{
    let style = Style::Unix;
    let one = seq!['.'];
    let two = seq!['.', '.'];
    let front = a.push('/') + dir;
    // A dot behind a name.
    let p = front.push('/') + one + tail;
    let shape = shape_of(style, p);
    lemma_settled_tail(shape, front.push('/') + one, tail);
    lemma_last_start_behind(shape, front.push('/'), one);
    assert(last_component(shape, front.push('/') + one) =~= one);
    assert(cut(shape, front.push('/') + one) =~= front);
    lemma_last_start_behind(shape, a.push('/'), dir);
    assert(last_component(shape, front) =~= dir);
    assert(settled(shape, front) == front);
    // Two dots.
    let q = a.push('/') + two + tail;
    let up = shape_of(style, q);
    lemma_settled_tail(up, a.push('/') + two, tail);
    lemma_last_start_behind(up, a.push('/'), two);
    assert(last_component(up, a.push('/') + two) =~= two);
    assert(two.len() == 2 && one.len() == 1);
    let r = front.push('/') + two + tail;
    let deep = shape_of(style, r);
    lemma_settled_tail(deep, front.push('/') + two, tail);
    lemma_last_start_behind(deep, front.push('/'), two);
    assert(last_component(deep, front.push('/') + two) =~= two);
    assert(cut(deep, front.push('/') + two) =~= front);
    lemma_last_start_behind(deep, a.push('/'), dir);
    assert(last_component(deep, front) =~= dir);
    assert(settled(deep, front) == front);
    // Slashes only.
    let flat = shape_of(style, tail);
    let head = tail.take(flat.head as int);
    let rest = tail.skip(flat.head as int);
    assert forall|i: int| 0 <= i < rest.len() implies splits(style, false, #[trigger] rest[i]) by {
        assert(rest[i] == tail[flat.head + i]);
    }
    lemma_settled_tail(flat, head, rest);
    assert(head + rest =~= tail);
    assert(settled(flat, head) == head);
}

} // verus!
