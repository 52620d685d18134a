//! The update package, a zip archive in the layout of its files.

use vstd::prelude::*;
use crate::args::texts;
use crate::files::{ops_view, FileOp, FileOpView, Plan, PlanView};
use crate::host::Platform;
use crate::overlay::lemma_joined_chained;
use crate::path::{
    are_file_names, can_be_name, char_at, component_end, drive_at, has_char, has_drive, has_sep,
    is_file_name, is_plain, is_separator, join, joined_all, lemma_component_end,
    lemma_component_stop, opened, sep_at, Style,
};
use crate::text::{chars_of, concat};

verus! {

/// The archive type of the `zip` crate.
#[verifier::external_type_specification]
#[verifier::external_body]
#[verifier::reject_recursive_types(R)]
pub struct ExZipArchive<R>(zip::ZipArchive<R>);

/// The in-memory reader of the standard library.
#[verifier::external_type_specification]
#[verifier::external_body]
#[verifier::reject_recursive_types(T)]
pub struct ExCursor<T>(std::io::Cursor<T>);

/// One file or directory of an archive.
pub struct Entry {
    /// The name that the archive stores.
    pub name: String,
    /// The components of the name that name something: where it is extracted.
    pub path: Vec<String>,
    pub is_dir: bool,
    /// The Unix permission bits, where the archive stores them.
    pub mode: Option<u32>,
    /// The contents, as far as they could be read.
    pub data: Vec<u8>,
    /// Why the contents could not be read to their end, if so.
    pub fault: Option<String>,
}

/// What an archive stores of an entry.
pub struct StoredEntry {
    pub name: Seq<char>,
    pub mode: Option<u32>,
    pub data: Result<Seq<u8>, Seq<char>>,
}

/// What [`Entry`] holds, as text and bytes.
pub struct EntryView {
    pub stored: StoredEntry,
    pub path: Seq<Seq<char>>,
    pub is_dir: bool,
    /// The contents, as far as they could be read.
    pub got: Seq<u8>,
}

impl View for Entry {
    type V = EntryView;

    open spec fn view(&self) -> EntryView {
        EntryView {
            stored: StoredEntry {
                name: self.name@,
                mode: self.mode,
                data: match self.fault {
                    Some(fault) => Err(fault@),
                    None => Ok(self.data@),
                },
            },
            path: texts(self.path@),
            is_dir: self.is_dir,
            got: self.data@,
        }
    }
}

/// The entries that an opened archive gives, each read or the message of why it
/// cannot be.
pub uninterp spec fn archive_entries(
    archive: zip::ZipArchive<std::io::Cursor<Vec<u8>>>,
) -> Seq<Result<StoredEntry, Seq<char>>>;

/// The entries of the archive in a package, or the message of why it is none.
pub uninterp spec fn archive_listing(package: Seq<u8>) -> Result<
    Seq<Result<StoredEntry, Seq<char>>>,
    Seq<char>,
>;

/// A name up to its first NUL character.
pub open spec fn until_nul(name: Seq<char>) -> Seq<char>
    decreases name.len(),
{
    if name.len() == 0 || name.first() == '\0' {
        seq![]
    } else {
        seq![name.first()] + until_nul(name.drop_first())
    }
}

/// The components of a name, between slashes and backslashes, that name
/// something: those that are empty, `.` or `..` are left out.
pub open spec fn plain_components(name: Seq<char>) -> Seq<Seq<char>>
    decreases name.len(),
{
    if name.len() == 0 {
        seq![]
    } else {
        let end = component_end(name, 0, false) as int;
        let first = if is_plain(Style::Windows, name.take(end)) {
            seq![name.take(end)]
        } else {
            seq![]
        };
        if end < name.len() {
            first + plain_components(name.skip(end + 1))
        } else {
            first
        }
    }
}

/// No component of a name starts with a letter and a colon.
pub open spec fn is_driveless(name: Seq<char>) -> bool {
    forall|i: int| #[trigger] drive_at(name, i) ==> 0 < i && !sep_at(name, i - 1)
}

/// A name in which no platform sees a drive, a share or a device: no component
/// starts with a letter and a colon, and it does not start with two separators.
pub open spec fn is_portable(name: Seq<char>) -> bool {
    !(sep_at(name, 0) && sep_at(name, 1)) && is_driveless(name)
}

/// The component that starts at position `i` of a name is `..`.
pub open spec fn up_at(name: Seq<char>, i: int) -> bool {
    &&& char_at(name, i, '.')
    &&& char_at(name, i + 1, '.')
    &&& i == 0 || sep_at(name, i - 1)
    &&& i + 2 == name.len() || sep_at(name, i + 2)
}

/// A name of path traversal: it is absolute, or one of its components, between
/// slashes and backslashes, is `..`, wherever that leads.
pub open spec fn has_traversal(style: Style, name: Seq<char>) -> bool {
    ||| sep_at(name, 0)
    ||| style == Style::Windows && drive_at(name, 0)
    ||| exists|i: int| up_at(name, i)
}

/// A path that starts with a drive.
pub open spec fn starts_at_drive(path: Seq<Seq<char>>) -> bool {
    path.len() > 0 && path[0].len() == 2 && drive_at(path[0], 0)
}

/// A path that some platform makes of a relative name. Where no component is taken
/// for a drive, it holds the components that name something. A drive at the start
/// may be dropped, and one further on may begin the path anew.
pub open spec fn is_path_of(path: Seq<Seq<char>>, name: Seq<char>) -> bool {
    ||| path == plain_components(name)
    ||| drive_at(name, 0) && path == plain_components(name.skip(2))
    ||| starts_at_drive(path)
}

/// How an entry is read from what an archive stores: it is a directory where its
/// name ends in a separator, and its path is one of its name. The path of one with
/// a portable name holds the components of the name that name something.
pub open spec fn is_reading_of(entry: EntryView, stored: StoredEntry) -> bool {
    &&& entry.stored == stored
    &&& stored.data is Ok ==> entry.got == stored.data->Ok_0
    &&& entry.is_dir == sep_at(stored.name, stored.name.len() - 1)
    &&& is_portable(stored.name) ==> entry.path == plain_components(until_nul(stored.name))
    &&& !sep_at(stored.name, 0) ==> is_path_of(entry.path, until_nul(stored.name))
}

/// An entry as it was read, or the message of why it could not be.
pub open spec fn entry_read(r: Result<Entry, String>) -> Result<EntryView, Seq<char>> {
    match r {
        Ok(entry) => Ok(entry@),
        Err(fault) => Err(fault@),
    }
}

/// An outcome of reading an entry is one of what the archive stores.
pub open spec fn entry_fits(
    read: Result<EntryView, Seq<char>>,
    stored: Result<StoredEntry, Seq<char>>,
) -> bool {
    match stored {
        Ok(stored) => read is Ok && is_reading_of(read->Ok_0, stored),
        Err(fault) => read == Err::<EntryView, Seq<char>>(fault),
    }
}

/// Opens an archive with `zip::ZipArchive::new`.
///
/// Not proved here: whether the call fails, the message of its error (as an
/// I/O error), and the entries that the archive then gives depend on the bytes
/// of the package alone.
#[verifier::external_body]
fn open_archive(package: Vec<u8>) -> (r: Result<
    zip::ZipArchive<std::io::Cursor<Vec<u8>>>,
    String,
>)
    ensures
        match r {
            Ok(archive) => archive_listing(package@) == Ok::<_, Seq<char>>(
                archive_entries(archive),
            ),
            Err(fault) => archive_listing(package@) == Err::<
                Seq<Result<StoredEntry, Seq<char>>>,
                Seq<char>,
            >(fault@),
        },
{
    zip::ZipArchive::new(std::io::Cursor::new(package)).map_err(
        |e| std::io::Error::from(e).to_string(),
    )
}

/// Counts the entries of an archive with `zip::ZipArchive::len`.
///
/// Not proved here: the count is that of the entries that
/// `zip::ZipArchive::by_index` gives.
#[verifier::external_body]
fn entry_count(archive: &zip::ZipArchive<std::io::Cursor<Vec<u8>>>) -> (r: usize)
    ensures
        r == archive_entries(*archive).len(),
{
    archive.len()
}

/// Reads an entry with `zip::ZipArchive::by_index`, and what the logic needs of
/// the `zip::read::ZipFile` that it gives: `name`, `mangled_name`, `is_dir`,
/// `unix_mode`, and the contents.
///
/// Not proved here: the archive stays the same, and gives the same entry at
/// every reading. `is_dir` goes by the last character of the name. What
/// `mangled_name` returns holds the components of the name up to a NUL character,
/// in their order, but for those that are empty, `.` or `..`. On Windows a
/// component that starts with a letter and a colon is a drive: at the start of the
/// name it is dropped, and further on it begins the path anew. Left unsaid is what
/// a name with two separators at its start becomes, and which of the paths it is
/// that a name with a drive has. Left unsaid is also how much was read of contents
/// that cannot be read to their end.
#[verifier::external_body]
fn read_entry(archive: &mut zip::ZipArchive<std::io::Cursor<Vec<u8>>>, i: usize) -> (r: Result<
    Entry,
    String,
>)
    requires
        i < archive_entries(*old(archive)).len(),
    ensures
        archive_entries(*final(archive)) == archive_entries(*old(archive)),
        entry_fits(entry_read(r), archive_entries(*old(archive))[i as int]),
{
    let mut file = archive.by_index(i).map_err(|e| std::io::Error::from(e).to_string())?;
    let mut data = Vec::new();
    let read = std::io::Read::read_to_end(&mut file, &mut data);
    let path = file.mangled_name();
    Ok(
        Entry {
            name: file.name().to_owned(),
            path: path.iter().map(|c| c.to_string_lossy().into_owned()).collect(),
            is_dir: file.is_dir(),
            mode: file.unix_mode(),
            data,
            fault: read.err().map(|e| e.to_string()),
        },
    )
}

/// Whether files of the platform have Unix permission bits.
pub open spec fn keeps_modes(platform: Platform) -> bool {
    platform != Platform::Windows
}

/// An entry that is not extracted: its name is one of path traversal, or its
/// path does not lead down name by name.
pub open spec fn is_rejected(style: Style, entry: EntryView) -> bool {
    has_traversal(style, entry.stored.name) || !are_file_names(style, entry.path)
}

/// The operations that extract an entry below `staging`. An entry whose name
/// names nothing is skipped. A file whose contents cannot be read to their end is
/// written as far as they could be.
pub open spec fn entry_ops(platform: Platform, staging: Seq<char>, entry: EntryView) -> Seq<
    FileOpView,
> {
    let style = platform.path_style();
    let out = joined_all(style, staging, entry.path);
    if is_rejected(style, entry) || entry.path.len() == 0 {
        seq![]
    } else if entry.is_dir {
        seq![FileOp::CreateDirAll { dir: out }]
    } else {
        let dir = seq![
            FileOp::CreateDirAll { dir: joined_all(style, staging, entry.path.drop_last()) },
        ];
        match (entry.stored.data, entry.stored.mode) {
            (Err(_), _) => dir.push(FileOp::WriteFile { path: out, data: entry.got }),
            (Ok(data), Some(mode)) => if keeps_modes(platform) {
                dir.push(FileOp::WriteFile { path: out, data }).push(
                    FileOp::SetMode { path: out, mode },
                )
            } else {
                dir.push(FileOp::WriteFile { path: out, data })
            },
            (Ok(data), None) => dir.push(FileOp::WriteFile { path: out, data }),
        }
    }
}

/// The permission bits of a directory, to be set once it is filled.
pub open spec fn entry_modes(platform: Platform, staging: Seq<char>, entry: EntryView) -> Seq<
    FileOpView,
> {
    let style = platform.path_style();
    let is_made = !is_rejected(style, entry) && entry.path.len() > 0 && entry.is_dir;
    if is_made && keeps_modes(platform) && entry.stored.mode is Some {
        seq![
            FileOp::SetMode {
                path: joined_all(style, staging, entry.path),
                mode: entry.stored.mode->0,
            },
        ]
    } else {
        seq![]
    }
}

/// Why extracting an entry fails, if it does: it is rejected, or the contents of a
/// file cannot be read.
pub open spec fn entry_fault(style: Style, entry: EntryView) -> Option<Seq<char>> {
    if is_rejected(style, entry) {
        Some("path traversal entry: "@ + entry.stored.name)
    } else {
        match entry.stored.data {
            Err(fault) => if entry.is_dir || entry.path.len() == 0 {
                None
            } else {
                Some(fault)
            },
            Ok(_) => None,
        }
    }
}

/// The plan with the extraction of one more entry at its end.
pub open spec fn with_entry(
    plan: PlanView,
    platform: Platform,
    staging: Seq<char>,
    read: Result<EntryView, Seq<char>>,
) -> PlanView {
    match read {
        Ok(entry) => plan.then_do(
            entry_ops(platform, staging, entry),
            entry_fault(platform.path_style(), entry),
        ),
        Err(fault) => plan.then_do(seq![], Some(fault)),
    }
}

/// As [`entry_modes`], of an entry as it was read.
pub open spec fn read_modes(
    platform: Platform,
    staging: Seq<char>,
    read: Result<EntryView, Seq<char>>,
) -> Seq<FileOpView> {
    match read {
        Ok(entry) => entry_modes(platform, staging, entry),
        Err(_) => seq![],
    }
}

/// The plan that lays entries out below `staging`, up to the first that cannot be
/// extracted.
pub open spec fn laying_out(
    platform: Platform,
    staging: Seq<char>,
    entries: Seq<Result<EntryView, Seq<char>>>,
) -> PlanView
    decreases entries.len(),
{
    if entries.len() == 0 {
        PlanView::empty()
    } else {
        let before = laying_out(platform, staging, entries.drop_last());
        if before.fault is Some {
            before
        } else {
            with_entry(before, platform, staging, entries.last())
        }
    }
}

/// The permission bits of directories, in the order of their entries.
pub open spec fn dir_modes(
    platform: Platform,
    staging: Seq<char>,
    entries: Seq<Result<EntryView, Seq<char>>>,
) -> Seq<FileOpView>
    decreases entries.len(),
{
    if entries.len() == 0 {
        seq![]
    } else {
        dir_modes(platform, staging, entries.drop_last()) + read_modes(
            platform,
            staging,
            entries.last(),
        )
    }
}

/// The plan that extracts entries below `staging`, up to the first that cannot be
/// extracted. The permission bits of directories come behind the last entry, and
/// those of later entries first, so that they keep nothing from being written.
pub open spec fn extraction(
    platform: Platform,
    staging: Seq<char>,
    entries: Seq<Result<EntryView, Seq<char>>>,
) -> PlanView {
    let laid_out = laying_out(platform, staging, entries);
    if laid_out.fault is Some {
        laid_out
    } else {
        laid_out.then_do(dir_modes(platform, staging, entries).reverse(), None)
    }
}

/// `names`, up to the `n`-th, one below the other, taken below `base`.
fn join_all(style: Style, base: &str, names: &Vec<String>, n: usize) -> (r: String)
    requires
        n <= names@.len(),
    ensures
        r@ == joined_all(style, base@, texts(names@).take(n as int)),
{
    let ghost all = texts(names@);
    let mut out = base.to_owned();
    let mut i: usize = 0;
    while i < n
        invariant
            i <= n <= names@.len(),
            all == texts(names@),
            out@ == joined_all(style, base@, all.take(i as int)),
        decreases n - i,
    {
        out = join(style, &out, &names[i]);
        assert(all.take(i + 1).drop_last() =~= all.take(i as int));
        i += 1;
    }
    out
}

/// Whether every component of a path can be the name of a file or directory.
fn leads_down(style: Style, path: &Vec<String>) -> (r: bool)
    ensures
        r == are_file_names(style, texts(path@)),
{
    let mut i: usize = 0;
    while i < path.len()
        invariant
            i <= path@.len(),
            forall|k: int| 0 <= k < i ==> is_file_name(style, #[trigger] texts(path@)[k]),
        decreases path@.len() - i,
    {
        if !can_be_name(style, &path[i]) {
            assert(!is_file_name(style, texts(path@)[i as int]));
            return false;
        }
        i += 1;
    }
    true
}

/// Whether a name is one of path traversal.
fn is_traversal(style: Style, name: &str) -> (r: bool)
    ensures
        r == has_traversal(style, name@),
{
    let p = chars_of(name);
    if has_sep(&p, 0) || (style == Style::Windows && has_drive(&p, 0)) {
        return true;
    }
    let length: usize = p.len();
    let mut i: usize = 0;
    while i < length && length - i >= 2
        invariant
            i <= length == p@.len(),
            p@ == name@,
            forall|k: int| 0 <= k < i ==> !up_at(name@, k),
        decreases length - i,
    {
        if has_char(&p, i, '.') && has_char(&p, i + 1, '.') && (i == 0 || has_sep(&p, i - 1)) && (
        length - i == 2 || has_sep(&p, i + 2)) {
            assert(up_at(name@, i as int));
            return true;
        }
        i += 1;
    }
    false
}

/// Adds the extraction of an entry to a plan that has no fault yet. The permission
/// bits of a directory are added to `modes`, to be set at the end.
pub fn extract_entry(
    plan: &mut Plan,
    modes: &mut Vec<FileOp<String, Vec<u8>>>,
    platform: Platform,
    staging: &str,
    read: Result<Entry, String>,
)
    requires
        old(plan).fault is None,
    ensures
        final(plan)@ == with_entry(old(plan)@, platform, staging@, entry_read(read)),
        ops_view(final(modes)@) == ops_view(old(modes)@) + read_modes(
            platform,
            staging@,
            entry_read(read),
        ),
{
    let ghost start = plan@;
    let ghost kept = ops_view(modes@);
    assert(kept + seq![] =~= kept);
    let entry = match read {
        Ok(entry) => entry,
        Err(fault) => {
            plan.fail(fault);
            return;
        },
    };
    let ghost view = entry@;
    let style = platform.style();
    let depth: usize = entry.path.len();
    let ghost path = texts(entry.path@);
    assert(path.take(depth as int) =~= path);
    assert(start.then_do(seq![], None) =~= start);
    if is_traversal(style, &entry.name) || !leads_down(style, &entry.path) {
        plan.fail(concat("path traversal entry: ", &entry.name));
        return;
    }
    if depth == 0 {
        return;
    }
    let out = join_all(style, staging, &entry.path, depth);
    if entry.is_dir {
        plan.push(FileOp::CreateDirAll { dir: out.clone() });
        if let Some(mode) = entry.mode {
            if platform != Platform::Windows {
                let op: FileOp<String, Vec<u8>> = FileOp::SetMode { path: out, mode };
                modes.push(op);
                assert(ops_view(modes@) =~= kept + seq![op@]);
            }
        }
        return;
    }
    assert(path.take(depth - 1) =~= path.drop_last());
    let dir = join_all(style, staging, &entry.path, depth - 1);
    plan.push(FileOp::CreateDirAll { dir });
    plan.push(FileOp::WriteFile { path: out.clone(), data: entry.data });
    match entry.fault {
        Some(fault) => {
            plan.fail(fault);
        },
        None => {
            if let Some(mode) = entry.mode {
                if platform != Platform::Windows {
                    plan.push(FileOp::SetMode { path: out, mode });
                }
            }
        },
    }
    assert(plan@.ops =~= start.ops + entry_ops(platform, staging@, view));
}

/// The entries that were read of an archive: all of them, or as many as it took
/// to meet one that cannot be extracted.
pub open spec fn is_reading(
    platform: Platform,
    staging: Seq<char>,
    read: Seq<Result<EntryView, Seq<char>>>,
    stored: Seq<Result<StoredEntry, Seq<char>>>,
) -> bool {
    &&& read.len() <= stored.len()
    &&& forall|i: int| 0 <= i < read.len() ==> entry_fits(#[trigger] read[i], stored[i])
    &&& read.len() < stored.len() ==> extraction(platform, staging, read).fault is Some
}

/// The plan extracts the entries that an archive stores below `staging`.
pub open spec fn is_extraction(
    plan: PlanView,
    platform: Platform,
    staging: Seq<char>,
    stored: Seq<Result<StoredEntry, Seq<char>>>,
) -> bool {
    exists|read: Seq<Result<EntryView, Seq<char>>>| #[trigger]
        is_reading(platform, staging, read, stored) && plan == extraction(platform, staging, read)
}

/// The plan lays the entries that an archive stores out below `staging`, and leaves
/// the permission bits of directories as they are.
pub open spec fn is_layout(
    plan: PlanView,
    platform: Platform,
    staging: Seq<char>,
    stored: Seq<Result<StoredEntry, Seq<char>>>,
) -> bool {
    exists|read: Seq<Result<EntryView, Seq<char>>>| #[trigger]
        is_reading(platform, staging, read, stored) && plan == laying_out(platform, staging, read)
}

/// As [`is_layout`], with the permission bits of the directories beside it.
spec fn is_layout_with_modes(
    plan: PlanView,
    modes: Seq<FileOpView>,
    platform: Platform,
    staging: Seq<char>,
    stored: Seq<Result<StoredEntry, Seq<char>>>,
) -> bool {
    exists|read: Seq<Result<EntryView, Seq<char>>>| #[trigger]
        is_reading(platform, staging, read, stored) && plan == laying_out(platform, staging, read)
            && modes == dir_modes(platform, staging, read)
}

fn lay_out_archive(platform: Platform, package: Vec<u8>, staging: &str) -> (r: (
    Plan,
    Vec<FileOp<String, Vec<u8>>>,
))
    ensures
        match archive_listing(package@) {
            Ok(stored) => is_layout_with_modes(
                r.0@,
                ops_view(r.1@),
                platform,
                staging@,
                stored,
            ),
            Err(fault) => r.0@ == PlanView::empty().then_do(seq![], Some(fault)),
        },
{
    let mut plan = Plan::new();
    let mut modes: Vec<FileOp<String, Vec<u8>>> = Vec::new();
    assert(ops_view(modes@) =~= seq![]);
    let mut archive = match open_archive(package) {
        Ok(archive) => archive,
        Err(fault) => {
            plan.fail(fault);
            return (plan, modes);
        },
    };
    let ghost stored = archive_entries(archive);
    let ghost mut read: Seq<Result<EntryView, Seq<char>>> = seq![];
    let count: usize = entry_count(&archive);
    let mut i: usize = 0;
    while i < count && plan.fault.is_none()
        invariant
            i <= count == stored.len(),
            stored == archive_entries(archive),
            read.len() == i,
            forall|k: int| 0 <= k < i ==> entry_fits(#[trigger] read[k], stored[k]),
            plan@ == laying_out(platform, staging@, read),
            ops_view(modes@) == dir_modes(platform, staging@, read),
        decreases count - i,
    {
        let entry = read_entry(&mut archive, i);
        proof {
            let longer = read.push(entry_read(entry));
            assert(longer.drop_last() =~= read);
            read = longer;
        }
        extract_entry(&mut plan, &mut modes, platform, staging, entry);
        i += 1;
    }
    assert(is_reading(platform, staging@, read, stored));
    (plan, modes)
}

/// Plans the extraction of a package below `staging`, with the permission bits
/// that the package gives its files and directories. An entry with a name of path
/// traversal is rejected, and ends the extraction.
pub fn extract_zip(platform: Platform, package: Vec<u8>, staging: &str) -> (r: Plan)
    ensures
        match archive_listing(package@) {
            Ok(stored) => is_extraction(r@, platform, staging@, stored),
            Err(fault) => r@ == PlanView::empty().then_do(seq![], Some(fault)),
        },
{
    let (plan, modes) = lay_out_archive(platform, package, staging);
    let mut plan = plan;
    if plan.fault.is_none() {
        plan.append_reversed(modes);
    }
    plan
}

/// As [`extract_zip`], but with directories that stay as they are made, so that
/// files can be moved out of them.
pub fn extract_files(platform: Platform, package: Vec<u8>, staging: &str) -> (r: Plan)
    ensures
        match archive_listing(package@) {
            Ok(stored) => is_layout(r@, platform, staging@, stored),
            Err(fault) => r@ == PlanView::empty().then_do(seq![], Some(fault)),
        },
{
    lay_out_archive(platform, package, staging).0
}

/// `path` is reached from `base` by going down, without a step up: it is `base`
/// itself, or lies below it.
pub open spec fn lies_in(style: Style, base: Seq<char>, path: Seq<char>) -> bool {
    exists|steps: Seq<Seq<char>>|
        are_file_names(style, steps) && path == #[trigger] joined_all(style, base, steps)
}

/// As [`lies_in`], and by at least one step.
pub open spec fn lies_below(style: Style, base: Seq<char>, path: Seq<char>) -> bool {
    exists|steps: Seq<Seq<char>>|
        steps.len() > 0 && are_file_names(style, steps) && path == #[trigger] joined_all(
            style,
            base,
            steps,
        )
}

/// An operation that only creates or changes what lies in `base`, and leaves
/// `base` itself a directory.
pub open spec fn is_confined(style: Style, base: Seq<char>, op: FileOpView) -> bool {
    match op {
        FileOp::CreateDirAll { dir } => lies_in(style, base, dir),
        FileOp::WriteFile { path, .. } => lies_below(style, base, path),
        FileOp::SetMode { path, .. } => lies_below(style, base, path),
        FileOp::RemoveFile { path } => lies_below(style, base, path),
        FileOp::Rename { from, to } => lies_below(style, base, from) && lies_below(style, base, to),
    }
}

proof fn lemma_entry_confined(platform: Platform, staging: Seq<char>, entry: EntryView)
    ensures
        forall|i: int|
            0 <= i < entry_ops(platform, staging, entry).len() ==> is_confined(
                platform.path_style(),
                staging,
                #[trigger] entry_ops(platform, staging, entry)[i],
            ),
{
    let style = platform.path_style();
    if entry.path.len() > 0 && !is_rejected(style, entry) {
        let up = entry.path.drop_last();
        assert(are_file_names(style, up)) by {
            assert forall|i: int| 0 <= i < up.len() implies is_file_name(style, #[trigger] up[i]) by {
                assert(up[i] == entry.path[i]);
            }
        }
        assert(lies_in(style, staging, joined_all(style, staging, up)));
        assert(lies_below(style, staging, joined_all(style, staging, entry.path)));
        assert(lies_in(style, staging, joined_all(style, staging, entry.path)));
    }
}

proof fn lemma_laying_out_confined(
    platform: Platform,
    staging: Seq<char>,
    entries: Seq<Result<EntryView, Seq<char>>>,
)
    ensures
        forall|i: int|
            0 <= i < laying_out(platform, staging, entries).ops.len() ==> is_confined(
                platform.path_style(),
                staging,
                #[trigger] laying_out(platform, staging, entries).ops[i],
            ),
    decreases entries.len(),
{
    if entries.len() > 0 {
        let init = entries.drop_last();
        lemma_laying_out_confined(platform, staging, init);
        let before = laying_out(platform, staging, init);
        let after = laying_out(platform, staging, entries);
        let last = entries[entries.len() - 1];
        if before.fault is None && last is Ok {
            lemma_entry_confined(platform, staging, last->Ok_0);
            assert forall|i: int| 0 <= i < after.ops.len() implies is_confined(
                platform.path_style(),
                staging,
                #[trigger] after.ops[i],
            ) by {
                if i < before.ops.len() {
                    assert(after.ops[i] == before.ops[i]);
                } else {
                    let k = i - before.ops.len();
                    assert(after.ops[i] == entry_ops(platform, staging, last->Ok_0)[k]);
                }
            }
        } else {
            assert(after.ops =~= before.ops);
        }
    }
}

/// A permission of a directory below `staging`.
pub open spec fn is_dir_mode(style: Style, staging: Seq<char>, op: FileOpView) -> bool {
    op matches FileOp::SetMode { path, .. } && lies_below(style, staging, path)
}

proof fn lemma_dir_modes(
    platform: Platform,
    staging: Seq<char>,
    entries: Seq<Result<EntryView, Seq<char>>>,
)
    ensures
        forall|i: int|
            0 <= i < dir_modes(platform, staging, entries).len() ==> is_dir_mode(
                platform.path_style(),
                staging,
                #[trigger] dir_modes(platform, staging, entries)[i],
            ),
    decreases entries.len(),
{
    if entries.len() > 0 {
        let style = platform.path_style();
        let init = entries.drop_last();
        lemma_dir_modes(platform, staging, init);
        let before = dir_modes(platform, staging, init);
        let own = read_modes(platform, staging, entries.last());
        let all = dir_modes(platform, staging, entries);
        assert forall|i: int| 0 <= i < all.len() implies is_dir_mode(
            style,
            staging,
            #[trigger] all[i],
        ) by {
            if i < before.len() {
                assert(all[i] == before[i]);
            } else {
                assert(all[i] == own[i - before.len()]);
                let path = entries.last()->Ok_0.path;
                assert(lies_below(style, staging, joined_all(style, staging, path)));
            }
        }
    }
}

proof fn lemma_extraction_confined(
    platform: Platform,
    staging: Seq<char>,
    entries: Seq<Result<EntryView, Seq<char>>>,
)
    ensures
        forall|i: int|
            0 <= i < extraction(platform, staging, entries).ops.len() ==> is_confined(
                platform.path_style(),
                staging,
                #[trigger] extraction(platform, staging, entries).ops[i],
            ),
{
    lemma_laying_out_confined(platform, staging, entries);
    lemma_dir_modes(platform, staging, entries);
    let laid_out = laying_out(platform, staging, entries).ops;
    let modes = dir_modes(platform, staging, entries);
    let ops = extraction(platform, staging, entries).ops;
    assert forall|i: int| 0 <= i < ops.len() implies is_confined(
        platform.path_style(),
        staging,
        #[trigger] ops[i],
    ) by {
        if i < laid_out.len() {
            assert(ops[i] == laid_out[i]);
        } else {
            let k = modes.len() - 1 - (i - laid_out.len());
            assert(ops[i] == modes[k]);
            assert(is_dir_mode(platform.path_style(), staging, modes[k]));
        }
    }
}

/// Whatever a package holds, extracting it touches nothing outside the staging
/// directory: no entry leads out of it, by `..`, by an absolute name or in any
/// other way.
pub proof fn law_no_traversal(
    platform: Platform,
    staging: Seq<char>,
    stored: Seq<Result<StoredEntry, Seq<char>>>,
    plan: PlanView,
)
    requires
        is_extraction(plan, platform, staging, stored) || is_layout(
            plan,
            platform,
            staging,
            stored,
        ),
    ensures
        forall|i: int|
            0 <= i < plan.ops.len() ==> is_confined(
                platform.path_style(),
                staging,
                #[trigger] plan.ops[i],
            ),
{
    if is_extraction(plan, platform, staging, stored) {
        let read = choose|read: Seq<Result<EntryView, Seq<char>>>| #[trigger]
            is_reading(platform, staging, read, stored) && plan == extraction(
                platform,
                staging,
                read,
            );
        lemma_extraction_confined(platform, staging, read);
    } else {
        let read = choose|read: Seq<Result<EntryView, Seq<char>>>| #[trigger]
            is_reading(platform, staging, read, stored) && plan == laying_out(
                platform,
                staging,
                read,
            );
        lemma_laying_out_confined(platform, staging, read);
    }
}

/// What lies below a directory has a path that starts with the directory's, as it
/// stands before the name of something in it.
pub proof fn law_inside_has_prefix(style: Style, base: Seq<char>, path: Seq<char>)
    requires
        lies_below(style, base, path),
    ensures
        opened(style, base).is_prefix_of(path),
{
    let steps = choose|steps: Seq<Seq<char>>|
        steps.len() > 0 && are_file_names(style, steps) && path == #[trigger] joined_all(
            style,
            base,
            steps,
        );
    lemma_joined_chained(style, base, steps);
    assert(path.subrange(0, opened(style, base).len() as int) =~= opened(style, base));
}

pub proof fn lemma_every_entry(
    platform: Platform,
    staging: Seq<char>,
    entries: Seq<Result<EntryView, Seq<char>>>,
    i: int,
)
    requires
        laying_out(platform, staging, entries).fault is None,
        0 <= i < entries.len(),
    ensures
        entries[i] is Ok,
        entry_fault(platform.path_style(), entries[i]->Ok_0) is None,
        forall|op: FileOpView|
            entry_ops(platform, staging, entries[i]->Ok_0).contains(op)
                ==> #[trigger] laying_out(platform, staging, entries).ops.contains(op),
        forall|op: FileOpView|
            entry_modes(platform, staging, entries[i]->Ok_0).contains(op)
                ==> #[trigger] dir_modes(platform, staging, entries).contains(op),
    decreases entries.len(),
{
    let init = entries.drop_last();
    let before = laying_out(platform, staging, init);
    let after = laying_out(platform, staging, entries);
    let last = entries[entries.len() - 1];
    assert(before.fault is None);
    assert(last is Ok);
    let own = entry_ops(platform, staging, last->Ok_0);
    assert(after.ops == before.ops + own);
    let modes = dir_modes(platform, staging, init);
    let own_modes = entry_modes(platform, staging, last->Ok_0);
    if i < init.len() {
        lemma_every_entry(platform, staging, init, i);
        assert(init[i] == entries[i]);
    }
    assert forall|op: FileOpView|
        entry_ops(platform, staging, entries[i]->Ok_0).contains(
            op,
        ) implies #[trigger] after.ops.contains(op) by {
        if i < init.len() {
            assert(before.ops.contains(op));
            let k = choose|k: int| 0 <= k < before.ops.len() && before.ops[k] == op;
            assert(after.ops[k] == op);
        } else {
            let k = choose|k: int| 0 <= k < own.len() && own[k] == op;
            assert(after.ops[before.ops.len() + k] == op);
        }
    }
    assert forall|op: FileOpView|
        entry_modes(platform, staging, entries[i]->Ok_0).contains(
            op,
        ) implies #[trigger] dir_modes(platform, staging, entries).contains(op) by {
        let all = dir_modes(platform, staging, entries);
        if i < init.len() {
            assert(modes.contains(op));
            let k = choose|k: int| 0 <= k < modes.len() && modes[k] == op;
            assert(all[k] == op);
        } else {
            let k = choose|k: int| 0 <= k < own_modes.len() && own_modes[k] == op;
            assert(all[modes.len() + k] == op);
        }
    }
}

/// A plan without a fault writes every file of the package, with its contents,
/// and on a platform with permission bits sets those that the package gives it.
pub proof fn law_every_file_extracted(
    platform: Platform,
    staging: Seq<char>,
    entries: Seq<Result<EntryView, Seq<char>>>,
    i: int,
)
    requires
        extraction(platform, staging, entries).fault is None,
        0 <= i < entries.len(),
    ensures
        entries[i] is Ok,
        ({
            let ops = extraction(platform, staging, entries).ops;
            let entry = entries[i]->Ok_0;
            let path = joined_all(platform.path_style(), staging, entry.path);
            entry.path.len() > 0 && !entry.is_dir ==> {
                &&& entry.stored.data is Ok
                &&& ops.contains(FileOp::WriteFile { path, data: entry.stored.data->Ok_0 })
                &&& keeps_modes(platform) && entry.stored.mode is Some ==> ops.contains(
                    FileOp::SetMode { path, mode: entry.stored.mode->0 },
                )
            }
        }),
{
    lemma_every_entry(platform, staging, entries, i);
    let entry = entries[i]->Ok_0;
    let path = joined_all(platform.path_style(), staging, entry.path);
    let own = entry_ops(platform, staging, entry);
    let laid_out = laying_out(platform, staging, entries).ops;
    let ops = extraction(platform, staging, entries).ops;
    assert forall|op: FileOpView| laid_out.contains(op) implies #[trigger] ops.contains(op) by {
        let k = choose|k: int| 0 <= k < laid_out.len() && laid_out[k] == op;
        assert(ops[k] == op);
    }
    if entry.path.len() > 0 && !entry.is_dir {
        assert(own[1] == (FileOp::WriteFile { path, data: entry.stored.data->Ok_0 }));
        assert(own.contains(own[1]));
        assert(laid_out.contains(own[1]));
        if keeps_modes(platform) && entry.stored.mode is Some {
            assert(own[2] == FileOpView::SetMode { path, mode: entry.stored.mode->0 });
            assert(own.contains(own[2]));
            assert(laid_out.contains(own[2]));
        }
    }
}

/// A plan without a fault makes every directory of the package, and on a platform
/// with permission bits sets those that the package gives it once all files are
/// written.
pub proof fn law_every_directory_extracted(
    platform: Platform,
    staging: Seq<char>,
    entries: Seq<Result<EntryView, Seq<char>>>,
    i: int,
)
    requires
        extraction(platform, staging, entries).fault is None,
        0 <= i < entries.len(),
    ensures
        entries[i] is Ok,
        ({
            let laid_out = laying_out(platform, staging, entries).ops;
            let ops = extraction(platform, staging, entries).ops;
            let entry = entries[i]->Ok_0;
            let dir = joined_all(platform.path_style(), staging, entry.path);
            &&& laid_out.is_prefix_of(ops)
            &&& entry.path.len() > 0 && entry.is_dir ==> {
                &&& laid_out.contains(FileOp::CreateDirAll { dir })
                &&& keeps_modes(platform) && entry.stored.mode is Some ==> ops.skip(
                    laid_out.len() as int,
                ).contains(FileOp::SetMode { path: dir, mode: entry.stored.mode->0 })
            }
        }),
{
    lemma_every_entry(platform, staging, entries, i);
    let entry = entries[i]->Ok_0;
    let dir = joined_all(platform.path_style(), staging, entry.path);
    let laid_out = laying_out(platform, staging, entries).ops;
    let ops = extraction(platform, staging, entries).ops;
    let modes = dir_modes(platform, staging, entries);
    assert(ops.subrange(0, laid_out.len() as int) =~= laid_out);
    assert(ops.skip(laid_out.len() as int) =~= modes.reverse());
    if entry.path.len() > 0 && entry.is_dir {
        let own = entry_ops(platform, staging, entry);
        assert(own[0] == FileOpView::CreateDirAll { dir });
        assert(own.contains(own[0]));
        assert(laid_out.contains(own[0]));
        if keeps_modes(platform) && entry.stored.mode is Some {
            let set = entry_modes(platform, staging, entry)[0];
            assert(entry_modes(platform, staging, entry).contains(set));
            assert(modes.contains(set));
            let k = choose|k: int| 0 <= k < modes.len() && modes[k] == set;
            assert(modes.reverse()[modes.len() - 1 - k] == set);
        }
    }
}

/// An entry with a name of path traversal is rejected: nothing is done for it, and
/// the plan ends there with a fault.
pub proof fn law_traversal_is_rejected(
    platform: Platform,
    staging: Seq<char>,
    entries: Seq<Result<EntryView, Seq<char>>>,
    entry: EntryView,
)
    requires
        laying_out(platform, staging, entries).fault is None,
        has_traversal(platform.path_style(), entry.stored.name),
    ensures
        extraction(platform, staging, entries.push(Ok(entry))) == (PlanView {
            ops: laying_out(platform, staging, entries).ops,
            fault: Some("path traversal entry: "@ + entry.stored.name),
        }),
{
    let longer = entries.push(Ok::<EntryView, Seq<char>>(entry));
    assert(longer.drop_last() =~= entries);
    assert(laying_out(platform, staging, longer).ops =~= laying_out(
        platform,
        staging,
        entries,
    ).ops);
}

proof fn lemma_until_nul(name: Seq<char>)
    ensures
        until_nul(name).len() <= name.len(),
        until_nul(name) == name.take(until_nul(name).len() as int),
    decreases name.len(),
{
    if name.len() > 0 && name.first() != '\0' {
        let rest = name.drop_first();
        lemma_until_nul(rest);
        assert(until_nul(name) =~= name.take(until_nul(name).len() as int));
    } else {
        assert(until_nul(name) =~= name.take(0));
    }
}

proof fn lemma_components_are_names(name: Seq<char>)
    requires
        is_driveless(name),
    ensures
        are_file_names(Style::Windows, plain_components(name)),
    decreases name.len(),
{
    if name.len() > 0 {
        let end = component_end(name, 0, false) as int;
        lemma_component_end(name, 0, false);
        let first = name.take(end);
        assert(!drive_at(first, 0)) by {
            if drive_at(first, 0) {
                assert(drive_at(name, 0));
            }
        }
        if end < name.len() {
            let rest = name.skip(end + 1);
            lemma_component_stop(name, 0, false);
            assert(is_driveless(rest)) by {
                assert forall|i: int| #[trigger] drive_at(rest, i) implies 0 < i && !sep_at(
                    rest,
                    i - 1,
                ) by {
                    assert(drive_at(name, end + 1 + i));
                    assert(!sep_at(name, end + i));
                }
            }
            lemma_components_are_names(rest);
            let path = plain_components(name);
            assert forall|i: int| 0 <= i < path.len() implies is_file_name(
                Style::Windows,
                #[trigger] path[i],
            ) by {
                if is_plain(Style::Windows, first) {
                    if i > 0 {
                        assert(path[i] == plain_components(rest)[i - 1]);
                    }
                } else {
                    assert(path[i] == plain_components(rest)[i]);
                }
            }
        }
    }
}

/// An entry with a portable name that is not one of path traversal is never
/// rejected.
pub proof fn law_portable_is_extracted(style: Style, entry: EntryView, stored: StoredEntry)
    requires
        is_reading_of(entry, stored),
        is_portable(stored.name),
        !has_traversal(style, stored.name),
    ensures
        !is_rejected(style, entry),
{
    let name = until_nul(stored.name);
    lemma_until_nul(stored.name);
    assert(is_driveless(name)) by {
        assert forall|i: int| #[trigger] drive_at(name, i) implies 0 < i && !sep_at(name, i - 1) by {
            assert(drive_at(stored.name, i));
        }
    }
    lemma_components_are_names(name);
    let path = entry.path;
    assert forall|i: int| 0 <= i < path.len() implies is_file_name(style, #[trigger] path[i]) by {
        assert(is_file_name(Style::Windows, path[i]));
        assert forall|k: int| 0 <= k < path[i].len() implies !is_separator(
            style,
            #[trigger] path[i][k],
        ) by {
            assert(!is_separator(Style::Windows, path[i][k]));
        }
    }
}

/// A relative name that names something, whatever is taken for a drive, is never
/// left out: its entry has a path.
pub proof fn law_nothing_is_left_out(entry: EntryView, stored: StoredEntry)
    requires
        is_reading_of(entry, stored),
        !sep_at(stored.name, 0),
        plain_components(until_nul(stored.name)).len() > 0,
        drive_at(until_nul(stored.name), 0) ==> plain_components(
            until_nul(stored.name).skip(2),
        ).len() > 0,
    ensures
        entry.path.len() > 0,
{
}

/// What is read of an entry with a portable name. `got` is what could be read of
/// contents that cannot be read to their end.
pub open spec fn portable_reading(
    stored: Result<StoredEntry, Seq<char>>,
    got: Seq<u8>,
) -> Result<EntryView, Seq<char>> {
    match stored {
        Ok(stored) => Ok(
            EntryView {
                stored,
                path: plain_components(until_nul(stored.name)),
                is_dir: sep_at(stored.name, stored.name.len() - 1),
                got: match stored.data {
                    Ok(data) => data,
                    Err(_) => got,
                },
            },
        ),
        Err(fault) => Err(fault),
    }
}

/// What is read of entries with portable names.
pub open spec fn portable_readings(
    stored: Seq<Result<StoredEntry, Seq<char>>>,
    got: Seq<Seq<u8>>,
) -> Seq<Result<EntryView, Seq<char>>> {
    Seq::new(stored.len(), |i: int| portable_reading(stored[i], got[i]))
}

/// Entries behind one that cannot be extracted add nothing.
proof fn lemma_fault_ends(
    platform: Platform,
    staging: Seq<char>,
    entries: Seq<Result<EntryView, Seq<char>>>,
    n: int,
)
    requires
        0 <= n <= entries.len(),
        laying_out(platform, staging, entries.take(n)).fault is Some,
    ensures
        laying_out(platform, staging, entries) == laying_out(platform, staging, entries.take(n)),
    decreases entries.len(),
{
    if n < entries.len() {
        let init = entries.drop_last();
        assert(init.take(n) =~= entries.take(n));
        lemma_fault_ends(platform, staging, init, n);
    } else {
        assert(entries.take(n) =~= entries);
    }
}

/// Every name in a package is portable.
pub open spec fn has_portable_names(stored: Seq<Result<StoredEntry, Seq<char>>>) -> bool {
    forall|i: int|
        0 <= i < stored.len() && (#[trigger] stored[i]) is Ok ==> is_portable(
            stored[i]->Ok_0.name,
        )
}

/// The contents of every file in a package can be read to their end.
pub open spec fn is_readable(stored: Seq<Result<StoredEntry, Seq<char>>>) -> bool {
    forall|i: int|
        0 <= i < stored.len() && (#[trigger] stored[i]) is Ok ==> stored[i]->Ok_0.data is Ok
}

/// What was read of a package with portable names is what it stores.
proof fn lemma_portable(
    platform: Platform,
    staging: Seq<char>,
    stored: Seq<Result<StoredEntry, Seq<char>>>,
    read: Seq<Result<EntryView, Seq<char>>>,
) -> (got: Seq<Seq<u8>>)
    requires
        is_reading(platform, staging, read, stored),
        has_portable_names(stored),
    ensures
        laying_out(platform, staging, read) == laying_out(
            platform,
            staging,
            portable_readings(stored, got),
        ),
        extraction(platform, staging, read) == extraction(
            platform,
            staging,
            portable_readings(stored, got),
        ),
        is_readable(stored) ==> forall|other: Seq<Seq<u8>>| #[trigger]
            portable_readings(stored, other) == portable_readings(stored, got),
{
    let n = read.len() as int;
    let got = Seq::new(
        stored.len(),
        |i: int|
            if i < n && read[i] is Ok {
                read[i]->Ok_0.got
            } else {
                seq![]
            },
    );
    let all = portable_readings(stored, got);
    assert forall|i: int| 0 <= i < n implies read[i] == all[i] by {
        assert(entry_fits(read[i], stored[i]));
        assert(all[i] == portable_reading(stored[i], got[i]));
    }
    assert(read =~= all.take(n));
    if n < stored.len() {
        lemma_fault_ends(platform, staging, all, n);
    } else {
        assert(all.take(n) =~= all);
    }
    if is_readable(stored) {
        assert forall|other: Seq<Seq<u8>>| #[trigger] portable_readings(stored, other) == all by {
            assert(portable_readings(stored, other) =~= all);
        }
    }
    got
}

/// Where all names in a package are portable, what the package stores settles how
/// it is extracted: each entry goes to the path that the components of its name
/// say. Only how much is written of a file that cannot be read to its end is open.
pub proof fn law_portable_package(
    platform: Platform,
    staging: Seq<char>,
    stored: Seq<Result<StoredEntry, Seq<char>>>,
    plan: PlanView,
)
    requires
        is_extraction(plan, platform, staging, stored),
        has_portable_names(stored),
    ensures
        exists|got: Seq<Seq<u8>>|
            plan == extraction(platform, staging, #[trigger] portable_readings(stored, got)),
        is_readable(stored) ==> forall|got: Seq<Seq<u8>>|
            plan == extraction(platform, staging, #[trigger] portable_readings(stored, got)),
{
    let read = choose|read: Seq<Result<EntryView, Seq<char>>>| #[trigger]
        is_reading(platform, staging, read, stored) && plan == extraction(platform, staging, read);
    let got = lemma_portable(platform, staging, stored, read);
    assert(plan == extraction(platform, staging, portable_readings(stored, got)));
}

/// As [`law_portable_package`], of a package whose directories stay as they are
/// made.
pub proof fn law_portable_layout(
    platform: Platform,
    staging: Seq<char>,
    stored: Seq<Result<StoredEntry, Seq<char>>>,
    plan: PlanView,
)
    requires
        is_layout(plan, platform, staging, stored),
        has_portable_names(stored),
    ensures
        exists|got: Seq<Seq<u8>>|
            plan == laying_out(platform, staging, #[trigger] portable_readings(stored, got)),
        is_readable(stored) ==> forall|got: Seq<Seq<u8>>|
            plan == laying_out(platform, staging, #[trigger] portable_readings(stored, got)),
{
    let read = choose|read: Seq<Result<EntryView, Seq<char>>>| #[trigger]
        is_reading(platform, staging, read, stored) && plan == laying_out(platform, staging, read);
    let got = lemma_portable(platform, staging, stored, read);
    assert(plan == laying_out(platform, staging, portable_readings(stored, got)));
}

/// A slash or a backslash.
pub open spec fn is_slash(c: char) -> bool {
    c == '/' || c == '\\'
}

/// The names of path traversal: those that start with a slash or a backslash, on
/// Windows those that start with a drive, and those with a component `..` at their
/// start, at their end or in between.
pub proof fn law_traversal_names(style: Style, name: Seq<char>)
    ensures
        has_traversal(style, name) <==> {
            ||| name.len() > 0 && is_slash(name[0])
            ||| style == Style::Windows && name.len() > 1 && name[1] == ':' && ('a' <= name[0]
                <= 'z' || 'A' <= name[0] <= 'Z')
            ||| exists|before: Seq<char>, behind: Seq<char>|
                {
                    &&& name == #[trigger] (before + ".."@ + behind)
                    &&& before.len() == 0 || is_slash(before.last())
                    &&& behind.len() == 0 || is_slash(behind[0])
                }
        },
{
    reveal_strlit("..");
    let up = ".."@;
    assert(up.len() == 2 && up[0] == '.' && up[1] == '.');
    if exists|i: int| up_at(name, i) {
        let i = choose|i: int| up_at(name, i);
        let before = name.take(i);
        let behind = name.skip(i + 2);
        assert(name =~= before + up + behind);
    }
    if exists|before: Seq<char>, behind: Seq<char>|
        {
            &&& name == #[trigger] (before + up + behind)
            &&& before.len() == 0 || is_slash(before.last())
            &&& behind.len() == 0 || is_slash(behind[0])
        } {
        let (before, behind) = choose|before: Seq<char>, behind: Seq<char>|
            {
                &&& name == #[trigger] (before + up + behind)
                &&& before.len() == 0 || is_slash(before.last())
                &&& behind.len() == 0 || is_slash(behind[0])
            };
        let i = before.len() as int;
        assert(name[i] == up[0] && name[i + 1] == up[1]);
        if before.len() > 0 {
            assert(name[i - 1] == before.last());
        }
        if behind.len() > 0 {
            assert(name[i + 2] == behind[0]);
        }
        assert(up_at(name, i));
    }
}

/// A component of a name, without a separator in it, is kept as it is, unless it is
/// empty, `.` or `..`. The components of a name are those before a separator and those
/// behind it.
pub proof fn law_components(component: Seq<char>, a: Seq<char>, separator: char, b: Seq<char>)
    requires
        forall|i: int| 0 <= i < component.len() ==> !is_slash(#[trigger] component[i]),
        is_slash(separator),
    ensures
        plain_components(component) == if component.len() == 0 || component == seq!['.']
            || component == seq!['.', '.'] {
            seq![]
        } else {
            seq![component]
        },
        plain_components(a.push(separator) + b) == plain_components(a) + plain_components(b),
    decreases a.len(),
{
    lemma_solid_end(component, 0);
    assert(component.take(component.len() as int) =~= component);
    let whole = a.push(separator) + b;
    if a.len() == 0 {
        assert(whole[0] == separator);
        assert(component_end(whole, 0, false) == 0);
        assert(whole.take(0) =~= seq![]);
        assert(whole.skip(1) =~= b);
        assert(plain_components(whole) =~= plain_components(a) + plain_components(b));
    } else {
        let end = component_end(a, 0, false) as int;
        lemma_component_end(a, 0, false);
        lemma_end_before(a, separator, b, 0);
        assert(whole.take(end) =~= a.take(end));
        if end < a.len() {
            let rest = a.skip(end + 1);
            law_components(component, rest, separator, b);
            assert(whole.skip(end + 1) =~= rest.push(separator) + b);
            assert(plain_components(whole) =~= plain_components(a) + plain_components(b));
        } else {
            assert(whole.skip(end + 1) =~= b);
            assert(plain_components(whole) =~= plain_components(a) + plain_components(b));
        }
    }
}

proof fn lemma_solid_end(s: Seq<char>, from: nat)
    requires
        from <= s.len(),
        forall|i: int| 0 <= i < s.len() ==> !is_slash(#[trigger] s[i]),
    ensures
        component_end(s, from, false) == s.len(),
    decreases s.len() - from,
{
    if from < s.len() {
        assert(!is_slash(s[from as int]));
        lemma_solid_end(s, from + 1);
    }
}

proof fn lemma_end_before(a: Seq<char>, separator: char, b: Seq<char>, from: nat)
    requires
        from <= a.len(),
        is_slash(separator),
    ensures
        component_end(a.push(separator) + b, from, false) == component_end(a, from, false),
    decreases a.len() - from,
{
    let whole = a.push(separator) + b;
    if from < a.len() {
        assert(whole[from as int] == a[from as int]);
        lemma_end_before(a, separator, b, from + 1);
    } else {
        assert(whole[from as int] == separator);
    }
}

/// What stands behind a NUL character in a name does not count; what stands before the
/// first one does.
pub proof fn law_until_nul(a: Seq<char>, b: Seq<char>)
    requires
        !a.contains('\0'),
    ensures
        until_nul(a) == a,
        until_nul(a.push('\0') + b) == a,
    decreases a.len(),
{
    let whole = a.push('\0') + b;
    if a.len() == 0 {
        assert(whole[0] == '\0');
        assert(until_nul(whole) =~= a);
        assert(until_nul(a) =~= a);
    } else {
        let rest = a.drop_first();
        assert(a.contains(a[0]));
        assert(!rest.contains('\0')) by {
            if rest.contains('\0') {
                let i = choose|i: int| 0 <= i < rest.len() && rest[i] == '\0';
                assert(a[i + 1] == '\0');
            }
        }
        law_until_nul(rest, b);
        assert(whole.drop_first() =~= rest.push('\0') + b);
        assert(seq![a[0]] + rest =~= a);
    }
}

/// An entry can be extracted: it could be read, its name is not one of path traversal
/// and leads down name by name, and its contents can be read to their end, if it is a
/// file.
pub open spec fn is_extractable(style: Style, read: Result<EntryView, Seq<char>>) -> bool {
    &&& read is Ok
    &&& !has_traversal(style, read->Ok_0.stored.name)
    &&& are_file_names(style, read->Ok_0.path)
    &&& read->Ok_0.is_dir || read->Ok_0.path.len() == 0 || read->Ok_0.stored.data is Ok
}

/// A package is extracted without a fault exactly where every entry of it can be
/// extracted.
pub proof fn law_extracted_whole(
    platform: Platform,
    staging: Seq<char>,
    entries: Seq<Result<EntryView, Seq<char>>>,
)
    ensures
        laying_out(platform, staging, entries).fault is None <==> forall|i: int|
            0 <= i < entries.len() ==> is_extractable(
                platform.path_style(),
                #[trigger] entries[i],
            ),
        extraction(platform, staging, entries).fault == laying_out(
            platform,
            staging,
            entries,
        ).fault,
    decreases entries.len(),
{
    if entries.len() > 0 {
        let style = platform.path_style();
        let init = entries.drop_last();
        law_extracted_whole(platform, staging, init);
        if laying_out(platform, staging, entries).fault is None {
            assert forall|i: int| 0 <= i < entries.len() implies is_extractable(
                style,
                #[trigger] entries[i],
            ) by {
                if i < init.len() {
                    assert(init[i] == entries[i]);
                }
            }
        }
        if forall|i: int|
            0 <= i < entries.len() ==> is_extractable(style, #[trigger] entries[i]) {
            assert forall|i: int| 0 <= i < init.len() implies is_extractable(
                style,
                #[trigger] init[i],
            ) by {
                assert(init[i] == entries[i]);
            }
            assert(is_extractable(style, entries[entries.len() - 1]));
        }
    }
}

/// Entries behind one that cannot be extracted are not looked at.
pub proof fn law_fault_ends_extraction(
    platform: Platform,
    staging: Seq<char>,
    entries: Seq<Result<EntryView, Seq<char>>>,
    behind: Seq<Result<EntryView, Seq<char>>>,
)
    requires
        laying_out(platform, staging, entries).fault is Some,
    ensures
        laying_out(platform, staging, entries + behind) == laying_out(platform, staging, entries),
        extraction(platform, staging, entries + behind) == extraction(platform, staging, entries),
{
    let all = entries + behind;
    assert(all.take(entries.len() as int) =~= entries);
    lemma_fault_ends(platform, staging, all, entries.len() as int);
}

/// An operation is one of an entry: it makes the directory of the entry or one above
/// it, it writes what could be read of the entry where the entry goes, or it gives
/// that the permission bits of the entry, which it does not do on Windows.
pub open spec fn is_of_entry(
    platform: Platform,
    staging: Seq<char>,
    read: Result<EntryView, Seq<char>>,
    op: FileOpView,
) -> bool {
    let style = platform.path_style();
    &&& read is Ok
    &&& read->Ok_0.path.len() > 0
    &&& match op {
        FileOp::CreateDirAll { dir } => exists|depth: int|
            0 <= depth <= read->Ok_0.path.len() && dir == joined_all(
                style,
                staging,
                #[trigger] read->Ok_0.path.take(depth),
            ),
        FileOp::WriteFile { path, data } => {
            &&& !read->Ok_0.is_dir
            &&& path == joined_all(style, staging, read->Ok_0.path)
            &&& data == read->Ok_0.got || read->Ok_0.stored.data == Ok::<_, Seq<char>>(data)
        },
        FileOp::SetMode { path, mode } => {
            &&& platform != Platform::Windows
            &&& path == joined_all(style, staging, read->Ok_0.path)
            &&& read->Ok_0.stored.mode == Some(mode)
        },
        _ => false,
    }
}

/// Nothing is made, written or changed but for an entry of the package.
pub proof fn law_nothing_but_entries(
    platform: Platform,
    staging: Seq<char>,
    entries: Seq<Result<EntryView, Seq<char>>>,
    k: int,
)
    requires
        0 <= k < extraction(platform, staging, entries).ops.len(),
    ensures
        exists|i: int|
            0 <= i < entries.len() && is_of_entry(
                platform,
                staging,
                #[trigger] entries[i],
                extraction(platform, staging, entries).ops[k],
            ),
        k < laying_out(platform, staging, entries).ops.len() ==> extraction(
            platform,
            staging,
            entries,
        ).ops[k] == laying_out(platform, staging, entries).ops[k],
{
    let laid_out = laying_out(platform, staging, entries).ops;
    let modes = dir_modes(platform, staging, entries);
    if k < laid_out.len() {
        lemma_laid_out_of_entry(platform, staging, entries, k);
    } else {
        let at = modes.len() - 1 - (k - laid_out.len());
        assert(extraction(platform, staging, entries).ops[k] == modes[at]);
        lemma_mode_of_entry(platform, staging, entries, at);
    }
}

proof fn lemma_mode_of_entry(
    platform: Platform,
    staging: Seq<char>,
    entries: Seq<Result<EntryView, Seq<char>>>,
    k: int,
)
    requires
        0 <= k < dir_modes(platform, staging, entries).len(),
    ensures
        exists|i: int|
            0 <= i < entries.len() && is_of_entry(
                platform,
                staging,
                #[trigger] entries[i],
                dir_modes(platform, staging, entries)[k],
            ),
    decreases entries.len(),
{
    let init = entries.drop_last();
    let before = dir_modes(platform, staging, init);
    let own = read_modes(platform, staging, entries.last());
    let op = dir_modes(platform, staging, entries)[k];
    if k < before.len() {
        lemma_mode_of_entry(platform, staging, init, k);
        let i = choose|i: int|
            0 <= i < init.len() && is_of_entry(platform, staging, #[trigger] init[i], before[k]);
        assert(entries[i] == init[i]);
    } else {
        assert(op == own[k - before.len()]);
        assert(is_of_entry(platform, staging, entries[entries.len() - 1], op));
    }
}

proof fn lemma_laid_out_of_entry(
    platform: Platform,
    staging: Seq<char>,
    entries: Seq<Result<EntryView, Seq<char>>>,
    k: int,
)
    requires
        0 <= k < laying_out(platform, staging, entries).ops.len(),
    ensures
        exists|i: int|
            0 <= i < entries.len() && is_of_entry(
                platform,
                staging,
                #[trigger] entries[i],
                laying_out(platform, staging, entries).ops[k],
            ),
    decreases entries.len(),
{
    let init = entries.drop_last();
    let last = entries[entries.len() - 1];
    let before = laying_out(platform, staging, init);
    let op = laying_out(platform, staging, entries).ops[k];
    if k < before.ops.len() {
        lemma_laid_out_of_entry(platform, staging, init, k);
        let i = choose|i: int|
            0 <= i < init.len() && is_of_entry(
                platform,
                staging,
                #[trigger] init[i],
                before.ops[k],
            );
        assert(entries[i] == init[i]);
        assert(op == before.ops[k]);
    } else {
        let entry = last->Ok_0;
        let own = entry_ops(platform, staging, entry);
        let at = k - before.ops.len();
        assert(op == own[at]);
        let n = entry.path.len() as int;
        assert(entry.path.take(n) =~= entry.path);
        assert(entry.path.take(n - 1) =~= entry.path.drop_last());
        assert(is_of_entry(platform, staging, last, op));
    }
}

/// On every platform but Windows a plan without a fault gives every file the
/// permission bits that the package has for it. A plan that lays a package out leaves
/// those of directories alone.
pub proof fn law_bits_are_kept(
    platform: Platform,
    staging: Seq<char>,
    entries: Seq<Result<EntryView, Seq<char>>>,
    i: int,
)
    requires
        platform != Platform::Windows,
        laying_out(platform, staging, entries).fault is None,
        0 <= i < entries.len(),
        entries[i] is Ok,
        entries[i]->Ok_0.path.len() > 0,
        entries[i]->Ok_0.stored.mode is Some,
    ensures
        ({
            let entry = entries[i]->Ok_0;
            let set: FileOpView = FileOp::SetMode {
                path: joined_all(platform.path_style(), staging, entry.path),
                mode: entry.stored.mode->0,
            };
            &&& extraction(platform, staging, entries).ops.contains(set)
            &&& !entry.is_dir ==> laying_out(platform, staging, entries).ops.contains(set)
        }),
{
    let entry = entries[i]->Ok_0;
    let set: FileOpView = FileOp::SetMode {
        path: joined_all(platform.path_style(), staging, entry.path),
        mode: entry.stored.mode->0,
    };
    let laid_out = laying_out(platform, staging, entries).ops;
    let ops = extraction(platform, staging, entries).ops;
    lemma_every_entry(platform, staging, entries, i);
    if entry.is_dir {
        law_every_directory_extracted(platform, staging, entries, i);
        let rest = ops.skip(laid_out.len() as int);
        let k = choose|k: int| 0 <= k < rest.len() && rest[k] == set;
        assert(ops[laid_out.len() + k] == set);
    } else {
        let own = entry_ops(platform, staging, entry);
        assert(own[2] == set);
        assert(own.contains(set));
        assert(laid_out.contains(set));
        let k = choose|k: int| 0 <= k < laid_out.len() && laid_out[k] == set;
        assert(ops[k] == set);
    }
}

/// Permission bits are set, while a package is laid out, for files only.
pub proof fn law_layout_leaves_directories(
    platform: Platform,
    staging: Seq<char>,
    entries: Seq<Result<EntryView, Seq<char>>>,
    k: int,
)
    requires
        0 <= k < laying_out(platform, staging, entries).ops.len(),
        laying_out(platform, staging, entries).ops[k] is SetMode,
    ensures
        exists|i: int|
            0 <= i < entries.len() && (#[trigger] entries[i]) is Ok && !entries[i]->Ok_0.is_dir
                && laying_out(platform, staging, entries).ops[k]->SetMode_path == joined_all(
                platform.path_style(),
                staging,
                entries[i]->Ok_0.path,
            ),
    decreases entries.len(),
{
    let init = entries.drop_last();
    let last = entries[entries.len() - 1];
    let before = laying_out(platform, staging, init);
    if k < before.ops.len() {
        assert(laying_out(platform, staging, entries).ops[k] == before.ops[k]);
        law_layout_leaves_directories(platform, staging, init, k);
        let i = choose|i: int|
            0 <= i < init.len() && (#[trigger] init[i]) is Ok && !init[i]->Ok_0.is_dir
                && before.ops[k]->SetMode_path == joined_all(
                platform.path_style(),
                staging,
                init[i]->Ok_0.path,
            );
        assert(entries[i] == init[i]);
    } else {
        let own = entry_ops(platform, staging, last->Ok_0);
        assert(laying_out(platform, staging, entries).ops[k] == own[k - before.ops.len()]);
        assert(entries[entries.len() - 1] is Ok);
    }
}

/// Where the permission bits of an entry stand among those of all.
proof fn lemma_mode_place(
    platform: Platform,
    staging: Seq<char>,
    entries: Seq<Result<EntryView, Seq<char>>>,
    i: int,
)
    requires
        0 <= i < entries.len(),
    ensures
        ({
            let all = dir_modes(platform, staging, entries);
            let before = dir_modes(platform, staging, entries.take(i));
            let own = read_modes(platform, staging, entries[i]);
            &&& before.len() + own.len() <= all.len()
            &&& all.subrange(before.len() as int, (before.len() + own.len()) as int) == own
        }),
    decreases entries.len(),
{
    let init = entries.drop_last();
    let all = dir_modes(platform, staging, entries);
    let before = dir_modes(platform, staging, entries.take(i));
    let own = read_modes(platform, staging, entries[i]);
    if i < init.len() {
        lemma_mode_place(platform, staging, init, i);
        assert(init.take(i) =~= entries.take(i));
        assert(init[i] == entries[i]);
        let some = dir_modes(platform, staging, init);
        assert(all.subrange(before.len() as int, (before.len() + own.len()) as int)
            =~= some.subrange(before.len() as int, (before.len() + own.len()) as int));
    } else {
        assert(entries.take(i) =~= init);
        assert(all.subrange(before.len() as int, (before.len() + own.len()) as int) =~= own);
    }
}

/// Where two directories of a package have permission bits, those of the later entry
/// are set first, and both behind all that is written: what lies in a directory is
/// named behind it, and can be reached as long as the directory is as it was made.
pub proof fn law_inner_directories_first(
    platform: Platform,
    staging: Seq<char>,
    entries: Seq<Result<EntryView, Seq<char>>>,
    i: int,
    j: int,
)
    requires
        platform != Platform::Windows,
        extraction(platform, staging, entries).fault is None,
        0 <= i < j < entries.len(),
        entries[i] is Ok && entries[i]->Ok_0.is_dir && entries[i]->Ok_0.path.len() > 0,
        entries[j] is Ok && entries[j]->Ok_0.is_dir && entries[j]->Ok_0.path.len() > 0,
        entries[i]->Ok_0.stored.mode is Some,
        entries[j]->Ok_0.stored.mode is Some,
    ensures
        exists|a: int, b: int|
            #![trigger extraction(platform, staging, entries).ops[a],
                extraction(platform, staging, entries).ops[b]]
            {
                let ops = extraction(platform, staging, entries).ops;
                &&& laying_out(platform, staging, entries).ops.len() <= a < b < ops.len()
                &&& ops[a] == (FileOpView::SetMode {
                    path: joined_all(platform.path_style(), staging, entries[j]->Ok_0.path),
                    mode: entries[j]->Ok_0.stored.mode->0,
                })
                &&& ops[b] == (FileOpView::SetMode {
                    path: joined_all(platform.path_style(), staging, entries[i]->Ok_0.path),
                    mode: entries[i]->Ok_0.stored.mode->0,
                })
            },
{
    let ops = extraction(platform, staging, entries).ops;
    let laid_out = laying_out(platform, staging, entries).ops;
    let modes = dir_modes(platform, staging, entries);
    lemma_every_entry(platform, staging, entries, i);
    lemma_every_entry(platform, staging, entries, j);
    lemma_mode_place(platform, staging, entries, i);
    lemma_mode_place(platform, staging, entries, j);
    let low = dir_modes(platform, staging, entries.take(i)).len() as int;
    let high = dir_modes(platform, staging, entries.take(j)).len() as int;
    lemma_mode_place(platform, staging, entries.take(j), i);
    assert(entries.take(j).take(i) =~= entries.take(i));
    assert(entries.take(j)[i] == entries[i]);
    let own_i = entry_modes(platform, staging, entries[i]->Ok_0);
    let own_j = entry_modes(platform, staging, entries[j]->Ok_0);
    assert(own_i.len() == 1 && own_j.len() == 1);
    assert(low < high);
    assert(modes[low] == modes.subrange(low, low + 1)[0]);
    assert(modes[high] == modes.subrange(high, high + 1)[0]);
    let n = laid_out.len() as int;
    let last = modes.len() as int - 1;
    assert(ops[n + last - high] == modes[high]);
    assert(ops[n + last - low] == modes[low]);
}

} // verus!
