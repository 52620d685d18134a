//! Moving a staged tree of files over an installed one.

use vstd::prelude::*;
use crate::args::optional;
use crate::files::{FileOp, FileOpView, Plan, PlanView};
use crate::path::{join, joined, Style};

verus! {

/// Something in a directory.
pub enum Node {
    /// Anything but a directory. `replaces` tells whether something exists at
    /// the path that it is to be moved to.
    File { name: String, replaces: bool },
    Dir { name: String, listing: Listing },
}

/// What a directory holds, in the order in which it was read, and why reading
/// stopped before its end, if it did.
pub struct Listing {
    pub entries: Vec<Node>,
    pub fault: Option<String>,
}

/// The operations that put `from` in the place of `to`.
pub open spec fn replacing(from: Seq<char>, to: Seq<char>, exists: bool) -> Seq<FileOpView> {
    if exists {
        seq![FileOp::RemoveFile { path: to }, FileOp::Rename { from, to }]
    } else {
        seq![FileOp::Rename { from, to }]
    }
}

/// The plan that moves the first `n` entries of `src` into `dst`.
pub open spec fn merging_first(
    style: Style,
    src: Seq<char>,
    dst: Seq<char>,
    listing: Listing,
    n: nat,
) -> PlanView
    decreases listing, n,
{
    if n == 0 || n > listing.entries@.len() {
        PlanView::empty()
    } else {
        let before = merging_first(style, src, dst, listing, (n - 1) as nat);
        if before.fault is Some {
            before
        } else {
            match listing.entries@[n - 1] {
                Node::File { name, replaces } => before.then_do(
                    replacing(joined(style, src, name@), joined(style, dst, name@), replaces),
                    None,
                ),
                Node::Dir { name, listing: below } => {
                    let target = joined(style, dst, name@);
                    let inner = merging(style, joined(style, src, name@), target, below);
                    before.then_do(seq![FileOp::CreateDirAll { dir: target }], None).then_do(
                        inner.ops,
                        inner.fault,
                    )
                },
            }
        }
    }
}

/// The plan that moves what `src` holds into `dst`: directories are created
/// there, and files take the place of those that exist.
pub open spec fn merging(
    style: Style,
    src: Seq<char>,
    dst: Seq<char>,
    listing: Listing,
) -> PlanView
    decreases listing, listing.entries@.len() + 1,
{
    let all = merging_first(style, src, dst, listing, listing.entries@.len());
    if all.fault is Some {
        all
    } else {
        all.then_do(seq![], optional(listing.fault))
    }
}

/// Adds to a plan what puts `from` in the place of `to`, where `exists` tells
/// whether there is something at `to`.
pub fn replace_file(plan: &mut Plan, from: &str, to: &str, exists: bool)
    requires
        old(plan).fault is None,
    ensures
        final(plan)@ == old(plan)@.then_do(replacing(from@, to@, exists), None),
        final(plan).fault is None,
{
    let ghost start = plan@;
    if exists {
        plan.push(FileOp::RemoveFile { path: to.to_owned() });
    }
    plan.push(FileOp::Rename { from: from.to_owned(), to: to.to_owned() });
    assert(plan@.ops =~= start.ops + replacing(from@, to@, exists));
}

/// Plans to move every file and directory in `src`, which holds `listing`, into
/// `dst`.
pub fn move_tree(style: Style, src: &str, dst: &str, listing: &Listing) -> (r: Plan)
    ensures
        r@ == merging(style, src@, dst@, *listing),
    decreases listing,
{
    let mut plan = Plan::new();
    let count: usize = listing.entries.len();
    let mut i: usize = 0;
    while i < count
        invariant
            i <= count == listing.entries@.len(),
            plan.fault is None,
            plan@ == merging_first(style, src@, dst@, *listing, i as nat),
        decreases count - i,
    {
        assert(decreases_to!(*listing => listing.entries@[i as int]));
        match &listing.entries[i] {
            Node::File { name, replaces } => {
                let from = join(style, src, name);
                let to = join(style, dst, name);
                replace_file(&mut plan, &from, &to, *replaces);
            },
            Node::Dir { name, listing: below } => {
                let from = join(style, src, name);
                let to = join(style, dst, name);
                let inner = move_tree(style, &from, &to, below);
                plan.push(FileOp::CreateDirAll { dir: to });
                plan.absorb(inner);
                if plan.fault.is_some() {
                    proof {
                        lemma_fault_stays(style, src@, dst@, *listing, i as nat + 1, count as nat);
                    }
                    return plan;
                }
            },
        }
        i += 1;
    }
    match &listing.fault {
        Some(fault) => {
            plan.fail(fault.clone());
        },
        None => {},
    }
    assert(plan@ =~= merging(style, src@, dst@, *listing));
    plan
}

/// A fault ends a merge: what comes behind it adds nothing.
proof fn lemma_fault_stays(
    style: Style,
    src: Seq<char>,
    dst: Seq<char>,
    listing: Listing,
    n: nat,
    m: nat,
)
    requires
        n <= m <= listing.entries@.len(),
        merging_first(style, src, dst, listing, n).fault is Some,
    ensures
        merging_first(style, src, dst, listing, m) == merging_first(style, src, dst, listing, n),
    decreases m - n,
{
    if n < m {
        lemma_fault_stays(style, src, dst, listing, n, (m - 1) as nat);
    }
}

/// The first `n` entries could be read, with all that is below them.
pub open spec fn is_whole_first(listing: Listing, n: nat) -> bool
    decreases listing, n,
{
    if n == 0 || n > listing.entries@.len() {
        true
    } else {
        is_whole_first(listing, (n - 1) as nat) && match listing.entries@[n - 1] {
            Node::File { .. } => true,
            Node::Dir { listing: below, .. } => is_whole(below),
        }
    }
}

/// The directory could be read to its end, and so could all directories below it.
pub open spec fn is_whole(listing: Listing) -> bool
    decreases listing, listing.entries@.len() + 1,
{
    listing.fault is None && is_whole_first(listing, listing.entries@.len())
}

/// A merge has no fault exactly where the whole tree could be read. Where all that was
/// listed could be, but the directory itself not to its end, its own fault is told.
pub proof fn law_merge_tells_faults(
    style: Style,
    src: Seq<char>,
    dst: Seq<char>,
    listing: Listing,
)
    ensures
        merging(style, src, dst, listing).fault is None <==> is_whole(listing),
        is_whole_first(listing, listing.entries@.len()) ==> merging(style, src, dst, listing).fault
            == optional(listing.fault),
{
    lemma_merge_tells_faults(style, src, dst, listing, listing.entries@.len());
}

proof fn lemma_merge_tells_faults(
    style: Style,
    src: Seq<char>,
    dst: Seq<char>,
    listing: Listing,
    n: nat,
)
    requires
        n <= listing.entries@.len(),
    ensures
        merging_first(style, src, dst, listing, n).fault is None <==> is_whole_first(listing, n),
    decreases listing, n,
{
    reveal_with_fuel(merging_first, 2);
    reveal_with_fuel(is_whole_first, 2);
    if n > 0 {
        lemma_merge_tells_faults(style, src, dst, listing, (n - 1) as nat);
        if let Node::Dir { name, listing: below } = listing.entries@[n - 1] {
            lemma_merge_tells_faults(
                style,
                joined(style, src, name@),
                joined(style, dst, name@),
                below,
                below.entries@.len(),
            );
        }
    }
}

} // verus!
