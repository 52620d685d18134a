//! Operations on files, as plans that are carried out one by one.

use vstd::prelude::*;
use crate::args::optional;

verus! {

/// One operation on the file system.
pub enum FileOp<S, D> {
    /// Creates a directory and those above it, where they do not exist.
    CreateDirAll { dir: S },
    /// Creates a file, or replaces its contents.
    WriteFile { path: S, data: D },
    /// Sets the permission bits of a file.
    SetMode { path: S, mode: u32 },
    /// Removes a file.
    RemoveFile { path: S },
    /// Gives a file a new path.
    Rename { from: S, to: S },
}

/// An operation as text and bytes.
pub type FileOpView = FileOp<Seq<char>, Seq<u8>>;

impl View for FileOp<String, Vec<u8>> {
    type V = FileOpView;

    open spec fn view(&self) -> FileOpView {
        match self {
            FileOp::CreateDirAll { dir } => FileOp::CreateDirAll { dir: dir@ },
            FileOp::WriteFile { path, data } => FileOp::WriteFile { path: path@, data: data@ },
            FileOp::SetMode { path, mode } => FileOp::SetMode { path: path@, mode: *mode },
            FileOp::RemoveFile { path } => FileOp::RemoveFile { path: path@ },
            FileOp::Rename { from, to } => FileOp::Rename { from: from@, to: to@ },
        }
    }
}

/// Operations to carry out in order, up to the first that fails. A plan with a
/// fault fails with it once its operations are done.
pub struct Plan {
    pub ops: Vec<FileOp<String, Vec<u8>>>,
    pub fault: Option<String>,
}

/// What [`Plan`] holds, as text and bytes.
#[verifier::ext_equal]
pub struct PlanView {
    pub ops: Seq<FileOpView>,
    pub fault: Option<Seq<char>>,
}

/// Operations as text and bytes.
pub open spec fn ops_view(ops: Seq<FileOp<String, Vec<u8>>>) -> Seq<FileOpView> {
    ops.map_values(|op: FileOp<String, Vec<u8>>| op@)
}

impl View for Plan {
    type V = PlanView;

    open spec fn view(&self) -> PlanView {
        PlanView {
            ops: ops_view(self.ops@),
            fault: optional(self.fault),
        }
    }
}

impl PlanView {
    /// The plan without operations or fault.
    pub open spec fn empty() -> PlanView {
        PlanView { ops: seq![], fault: None }
    }

    /// The plan with operations added to its end, and a fault behind them.
    pub open spec fn then_do(self, ops: Seq<FileOpView>, fault: Option<Seq<char>>) -> PlanView {
        PlanView { ops: self.ops + ops, fault }
    }
}

impl Plan {
    pub fn new() -> (r: Plan)
        ensures
            r@ == PlanView::empty(),
    {
        let r = Plan { ops: Vec::new(), fault: None };
        assert(r@ =~= PlanView::empty());
        r
    }

    /// Adds an operation to the end of a plan that has no fault.
    pub fn push(&mut self, op: FileOp<String, Vec<u8>>)
        requires
            old(self).fault is None,
        ensures
            final(self)@ == old(self)@.then_do(seq![op@], None),
            final(self).fault is None,
    {
        self.ops.push(op);
        assert(self@ =~= old(self)@.then_do(seq![op@], None));
    }

    /// Adds another plan to the end of one that has no fault.
    pub fn absorb(&mut self, other: Plan)
        requires
            old(self).fault is None,
        ensures
            final(self)@ == old(self)@.then_do(other@.ops, other@.fault),
    {
        let mut other = other;
        let ghost added = other@.ops;
        self.ops.append(&mut other.ops);
        self.fault = other.fault;
        assert(self@.ops =~= old(self)@.ops + added);
    }

    /// Adds operations to the end of a plan that has no fault, the last one first.
    pub fn append_reversed(&mut self, ops: Vec<FileOp<String, Vec<u8>>>)
        requires
            old(self).fault is None,
        ensures
            final(self)@ == old(self)@.then_do(ops_view(ops@).reverse(), None),
            final(self).fault is None,
    {
        let ghost all = ops_view(ops@);
        let ghost start = self@;
        let mut rest = ops;
        assert(start.ops + all.skip(all.len() as int).reverse() =~= start.ops);
        while rest.len() > 0
            invariant
                self.fault is None,
                all == ops_view(ops@),
                rest@.len() <= ops@.len(),
                rest@ == ops@.take(rest@.len() as int),
                self@.ops == start.ops + all.skip(rest@.len() as int).reverse(),
            decreases rest@.len(),
        {
            let ghost n = rest@.len() as int;
            let ghost before = self@.ops;
            let op = rest.pop();
            if let Some(op) = op {
                self.push(op);
                assert(op@ == all[n - 1]);
                assert(all.skip(n - 1).reverse() =~= all.skip(n).reverse().push(all[n - 1]));
                assert(before + seq![op@] =~= start.ops + all.skip(n - 1).reverse());
            }
        }
        assert(all.skip(0) =~= all);
        assert(self@ =~= start.then_do(all.reverse(), None));
    }

    /// Ends a plan that has no fault with one.
    pub fn fail(&mut self, fault: String)
        requires
            old(self).fault is None,
        ensures
            final(self)@ == old(self)@.then_do(seq![], Some(fault@)),
    {
        self.fault = Some(fault);
        assert(self@ =~= old(self)@.then_do(seq![], Some(fault@)));
    }
}

/// A regular file: its contents, and the permission bits that were set for it.
/// Without any, it has those of a new file.
pub struct FileState {
    pub data: Seq<u8>,
    pub mode: Option<u32>,
}

/// The regular files of a file system by their paths.
pub type Files = Map<Seq<char>, FileState>;

/// The permission bits that were set for the file at a path, if there is one.
pub open spec fn mode_at(files: Files, path: Seq<char>) -> Option<u32> {
    if files.dom().contains(path) {
        files[path].mode
    } else {
        None
    }
}

/// The files after an operation that succeeds.
pub open spec fn after(files: Files, op: FileOpView) -> Files {
    match op {
        FileOp::CreateDirAll { .. } => files,
        FileOp::WriteFile { path, data } => files.insert(
            path,
            FileState { data, mode: mode_at(files, path) },
        ),
        FileOp::SetMode { path, mode } => if files.dom().contains(path) {
            files.insert(path, FileState { data: files[path].data, mode: Some(mode) })
        } else {
            files
        },
        FileOp::RemoveFile { path } => files.remove(path),
        FileOp::Rename { from, to } => if files.dom().contains(from) {
            files.remove(from).insert(to, files[from])
        } else {
            files
        },
    }
}

/// The files after operations that all succeed.
pub open spec fn after_all(files: Files, ops: Seq<FileOpView>) -> Files
    decreases ops.len(),
{
    if ops.len() == 0 {
        files
    } else {
        after(after_all(files, ops.drop_last()), ops.last())
    }
}

/// Operations one after the other.
pub proof fn lemma_after_all_add(files: Files, first: Seq<FileOpView>, second: Seq<FileOpView>)
    ensures
        after_all(files, first + second) == after_all(after_all(files, first), second),
    decreases second.len(),
{
    let both = first + second;
    if second.len() == 0 {
        assert(both =~= first);
    } else {
        assert(both.drop_last() =~= first + second.drop_last());
        lemma_after_all_add(files, first, second.drop_last());
    }
}

/// The same file, or none, at a path.
pub open spec fn same_at(a: Files, b: Files, path: Seq<char>) -> bool {
    a.dom().contains(path) == b.dom().contains(path) && (a.dom().contains(path) ==> a[path]
        == b[path])
}

} // verus!
