//! Folder and file iterations: what they ask to be read, and the lines
//! that they expand to.

use vstd::prelude::*;
use crate::metadata::{file_metadata, file_settings, folder_metadata, folder_settings};
use crate::scope::{substitute, substituted, Scope};
use crate::source::{lemma_sourced_push, sourced, strip, texts_of, SourceLine, Sourced};
use crate::text::{
    chars_of, matches_at, rows, same_text, split, split_on, starts_with, string_of, texts,
};

verus! {

/// A source file inside an iterated folder, as read from disk: its address
/// and its text.
#[derive(Debug, PartialEq, Eq)]
pub struct FileEntry {
    pub url: String,
    pub text: String,
}

/// A subfolder that a folder iteration visits, as read from disk: its
/// address, the text of its settings file if it has one, and its source
/// files in listing order.
#[derive(Debug, PartialEq, Eq)]
pub struct FolderEntry {
    pub url: String,
    pub settings: Option<String>,
    pub files: Vec<FileEntry>,
}

/// What an iteration knows of a folder: the folder's metadata and the
/// metadata of each of its source files.
pub struct FolderModel {
    pub metadata: Map<Seq<char>, Seq<char>>,
    pub files: Seq<Map<Seq<char>, Seq<char>>>,
}

impl View for FileEntry {
    type V = Map<Seq<char>, Seq<char>>;

    open spec fn view(&self) -> Map<Seq<char>, Seq<char>> {
        file_settings(self.url@, self.text@)
    }
}

impl View for FolderEntry {
    type V = FolderModel;

    open spec fn view(&self) -> FolderModel {
        FolderModel {
            metadata: folder_settings(
                self.url@,
                match self.settings {
                    Some(text) => Some(text@),
                    None => None,
                },
            ),
            files: Seq::new(self.files@.len(), |i: int| self.files@[i]@),
        }
    }
}

/// What each listing holds, folder by folder.
pub open spec fn folders(listing: Seq<FolderEntry>) -> Seq<FolderModel> {
    Seq::new(listing.len(), |i: int| listing[i]@)
}

/// What the listings hold, one listing for each folder iteration.
pub open spec fn listed(listings: Seq<Vec<FolderEntry>>) -> Seq<Seq<FolderModel>> {
    Seq::new(listings.len(), |i: int| folders(listings[i]@))
}

/// What is wrong with an iteration directive.
#[derive(Debug, Clone, Copy, PartialEq, Eq, Structural)]
pub enum DirectiveErrorKind {
    /// A folder iteration names no path.
    MissingPath,
    /// The body of a folder iteration, or of a file iteration inside it,
    /// has no closing line.
    Unterminated,
    /// No listing was handed in for a folder iteration.
    MissingListing,
}

/// An iteration directive that cannot be expanded: the index of its line,
/// and why.
#[derive(Debug, Clone, Copy, PartialEq, Eq, Structural)]
pub struct DirectiveError {
    pub line: usize,
    pub kind: DirectiveErrorKind,
}

/// The text that a folder iteration's line starts with.
pub open spec fn folder_directive() -> Seq<char> {
    "for_each_folder"@
}

/// The line that starts a file iteration.
pub open spec fn files_directive() -> Seq<char> {
    "for_each_md_in_current_folder"@
}

/// The line that closes an iteration's body.
pub open spec fn terminator() -> Seq<char> {
    seq![';', ';', ';']
}

/// The path that a folder iteration's line names: the text between its
/// first `=` and its next `=` or its end, if there is any.
pub open spec fn folder_path(line: Seq<char>) -> Option<Seq<char>> {
    let parts = split_on(line, '=');
    if parts.len() >= 2 && parts[1].len() > 0 {
        Some(parts[1])
    } else {
        None
    }
}

/// The index of the first closing line at or after `from`, or the number of
/// lines if there is none.
pub open spec fn block_end(lines: Seq<Seq<char>>, from: int) -> int
    decreases lines.len() - from,
{
    if from < 0 || from >= lines.len() {
        lines.len() as int
    } else if lines[from] == terminator() {
        from
    } else {
        block_end(lines, from + 1)
    }
}

/// The index of the line that closes the folder body which starts at
/// `from`, or the number of lines if the body is not closed. A file
/// iteration inside the body has a closing line of its own.
pub open spec fn body_end(lines: Seq<Seq<char>>, from: int) -> int
    decreases lines.len() - from,
{
    if from < 0 || from >= lines.len() {
        lines.len() as int
    } else if lines[from] == terminator() {
        from
    } else if lines[from] == files_directive() {
        let inner = block_end(lines, from + 1);
        if from < inner < lines.len() {
            body_end(lines, inner + 1)
        } else {
            lines.len() as int
        }
    } else {
        body_end(lines, from + 1)
    }
}

/// The lines from `from` up to `to`, each with its placeholders replaced
/// from `scope`.
pub open spec fn stamped(
    lines: Seq<Seq<char>>,
    from: int,
    to: int,
    scope: Map<Seq<char>, Seq<char>>,
) -> Seq<Sourced> {
    Seq::new(
        (to - from) as nat,
        |j: int| Sourced { origin: (from + j) as nat, text: substituted(lines[from + j], scope) },
    )
}

/// The lines from `from` up to `to` once for each file, in the files'
/// order.
pub open spec fn per_file(
    lines: Seq<Seq<char>>,
    from: int,
    to: int,
    files: Seq<Map<Seq<char>, Seq<char>>>,
) -> Seq<Sourced>
    decreases files.len(),
{
    if files.len() == 0 {
        Seq::empty()
    } else {
        per_file(lines, from, to, files.drop_last()) + stamped(lines, from, to, files.last())
    }
}

/// What the body lines from `from` up to `end` put out for one folder: a
/// file iteration puts out its own body once for each file of the folder,
/// any other line is put out with its placeholders replaced from the
/// folder's metadata.
pub open spec fn folder_lines(lines: Seq<Seq<char>>, from: int, end: int, folder: FolderModel) -> Seq<
    Sourced,
>
    decreases end - from,
{
    if from < 0 || from >= end || end > lines.len() {
        Seq::empty()
    } else if lines[from] == files_directive() {
        let inner = block_end(lines, from + 1);
        if from < inner < end {
            per_file(lines, from + 1, inner, folder.files) + folder_lines(
                lines,
                inner + 1,
                end,
                folder,
            )
        } else {
            Seq::empty()
        }
    } else {
        seq![Sourced { origin: from as nat, text: substituted(lines[from], folder.metadata) }]
            + folder_lines(lines, from + 1, end, folder)
    }
}

/// What the body lines from `from` up to `end` put out for each folder in
/// turn.
pub open spec fn per_folder(
    lines: Seq<Seq<char>>,
    from: int,
    end: int,
    listing: Seq<FolderModel>,
) -> Seq<Sourced>
    decreases listing.len(),
{
    if listing.len() == 0 {
        Seq::empty()
    } else {
        per_folder(lines, from, end, listing.drop_last()) + folder_lines(
            lines,
            from,
            end,
            listing.last(),
        )
    }
}

/// The lines `head` followed by the lines of `rest`, or the error of `rest`.
pub open spec fn followed_by(
    head: Seq<Sourced>,
    rest: Result<Seq<Sourced>, DirectiveError>,
) -> Result<Seq<Sourced>, DirectiveError> {
    match rest {
        Ok(tail) => Ok(head + tail),
        Err(e) => Err(e),
    }
}

/// What is wrong with the folder iteration that starts at line `i`, if
/// anything, given that `k` listings are used up.
pub open spec fn directive_fault(lines: Seq<Seq<char>>, i: int, k: int, given: int) -> Option<
    DirectiveErrorKind,
> {
    let end = body_end(lines, i + 1);
    if folder_path(lines[i]) is None {
        Some(DirectiveErrorKind::MissingPath)
    } else if !(i < end < lines.len()) {
        Some(DirectiveErrorKind::Unterminated)
    } else if !(0 <= k < given) {
        Some(DirectiveErrorKind::MissingListing)
    } else {
        None
    }
}

/// The expansion of the lines from `i` on, where the next folder iteration
/// uses the listing with index `k`.
pub open spec fn expanded_from(
    lines: Seq<Seq<char>>,
    listings: Seq<Seq<FolderModel>>,
    i: int,
    k: int,
) -> Result<Seq<Sourced>, DirectiveError>
    decreases lines.len() - i,
{
    if i < 0 || i >= lines.len() {
        Ok(Seq::empty())
    } else if starts_with(lines[i], folder_directive()) {
        let end = body_end(lines, i + 1);
        match directive_fault(lines, i, k, listings.len() as int) {
            Some(kind) => Err(DirectiveError { line: i as usize, kind: kind }),
            None => followed_by(
                per_folder(lines, i + 1, end, listings[k]),
                expanded_from(lines, listings, end + 1, k + 1),
            ),
        }
    } else {
        followed_by(
            seq![Sourced { origin: i as nat, text: lines[i] }],
            expanded_from(lines, listings, i + 1, k),
        )
    }
}

/// The lines with every folder iteration expanded, each with the index of
/// the source line that it came from: a line that starts with
/// `for_each_folder` opens an iteration, whose body runs up to its closing
/// line and is put out once for each folder of the iteration's listing; any
/// other line stays as it is. The `k`-th iteration uses the `k`-th listing.
pub open spec fn expanded_lines(lines: Seq<Seq<char>>, listings: Seq<Seq<FolderModel>>) -> Result<
    Seq<Sourced>,
    DirectiveError,
> {
    expanded_from(lines, listings, 0, 0)
}

/// The texts of the lines with every folder iteration expanded.
pub open spec fn expanded(lines: Seq<Seq<char>>, listings: Seq<Seq<FolderModel>>) -> Result<
    Seq<Seq<char>>,
    DirectiveError,
> {
    match expanded_lines(lines, listings) {
        Ok(out) => Ok(texts_of(out)),
        Err(e) => Err(e),
    }
}

/// The first closing line at or after `from` lies between `from` and the
/// end, and closes where it lies among the lines.
pub proof fn lemma_block_end(lines: Seq<Seq<char>>, from: int)
    requires
        0 <= from <= lines.len(),
    ensures
        from <= block_end(lines, from) <= lines.len(),
        block_end(lines, from) < lines.len() ==> lines[block_end(lines, from)] == terminator(),
    decreases lines.len() - from,
{
    if from < lines.len() && lines[from] != terminator() {
        lemma_block_end(lines, from + 1);
    }
}

/// The line that closes a folder body lies between the body's start and
/// the end, and is a closing line where it lies among the lines.
pub proof fn lemma_body_end(lines: Seq<Seq<char>>, from: int)
    requires
        0 <= from <= lines.len(),
    ensures
        from <= body_end(lines, from) <= lines.len(),
        body_end(lines, from) < lines.len() ==> lines[body_end(lines, from)] == terminator(),
    decreases lines.len() - from,
{
    if from < lines.len() && lines[from] != terminator() {
        if lines[from] == files_directive() {
            let inner = block_end(lines, from + 1);
            lemma_block_end(lines, from + 1);
            if inner < lines.len() {
                lemma_body_end(lines, inner + 1);
            }
        } else {
            lemma_body_end(lines, from + 1);
        }
    }
}

/// A body without a file iteration puts out, for one folder, each of its
/// lines once, with the placeholders replaced from the folder's metadata.
pub proof fn lemma_plain_body(lines: Seq<Seq<char>>, from: int, end: int, folder: FolderModel)
    requires
        0 <= from <= end <= lines.len(),
        forall|j: int| from <= j < end ==> #[trigger] lines[j] != files_directive(),
    ensures
        folder_lines(lines, from, end, folder) == stamped(lines, from, end, folder.metadata),
    decreases end - from,
{
    if from < end {
        lemma_plain_body(lines, from + 1, end, folder);
        assert(lines[from] != files_directive());
        assert(seq![Sourced { origin: from as nat, text: substituted(lines[from], folder.metadata) }]
            + stamped(lines, from + 1, end, folder.metadata) =~= stamped(
            lines,
            from,
            end,
            folder.metadata,
        ));
    } else {
        assert(folder_lines(lines, from, end, folder) =~= stamped(
            lines,
            from,
            end,
            folder.metadata,
        ));
    }
}

/// A folder iteration whose body holds no file iteration puts out the body
/// once for each folder, in the order of the listing: line `j` of the body
/// stands at place `j` of the `f`-th copy, with its placeholders replaced
/// from the metadata of the `f`-th folder.
pub proof fn lemma_one_copy_per_folder(
    lines: Seq<Seq<char>>,
    from: int,
    end: int,
    listing: Seq<FolderModel>,
)
    requires
        0 <= from <= end <= lines.len(),
        forall|j: int| from <= j < end ==> #[trigger] lines[j] != files_directive(),
    ensures
        per_folder(lines, from, end, listing).len() == listing.len() * (end - from),
        forall|f: int, j: int|
            0 <= f < listing.len() && 0 <= j < end - from ==> #[trigger] per_folder(
                lines,
                from,
                end,
                listing,
            )[f * (end - from) + j] == (Sourced {
                origin: (from + j) as nat,
                text: substituted(lines[from + j], listing[f].metadata),
            }),
    decreases listing.len(),
{
    let width = end - from;
    let all = per_folder(lines, from, end, listing);
    if listing.len() > 0 {
        let front = listing.drop_last();
        let before = per_folder(lines, from, end, front);
        let copy = folder_lines(lines, from, end, listing.last());
        lemma_one_copy_per_folder(lines, from, end, front);
        lemma_plain_body(lines, from, end, listing.last());
        assert(before.len() == front.len() * width);
        assert(listing.len() * width == front.len() * width + width) by (nonlinear_arith)
            requires
                listing.len() == front.len() + 1,
        ;
        assert forall|f: int, j: int| 0 <= f < listing.len() && 0 <= j < width implies #[trigger] all[f
            * width + j] == (Sourced {
            origin: (from + j) as nat,
            text: substituted(lines[from + j], listing[f].metadata),
        }) by {
            if f < front.len() {
                assert(f * width + j < front.len() * width) by (nonlinear_arith)
                    requires
                        0 <= f < front.len(),
                        0 <= j < width,
                ;
                assert(0 <= f * width + j) by (nonlinear_arith)
                    requires
                        0 <= f,
                        0 <= j < width,
                ;
                assert(all[f * width + j] == before[f * width + j]);
                assert(front[f] == listing[f]);
            } else {
                assert(f * width == front.len() * width);
                assert(all[f * width + j] == copy[j]);
            }
        }
    } else {
        assert(listing.len() * width == 0) by (nonlinear_arith)
            requires
                listing.len() == 0,
        ;
    }
}

/// The bindings held by a sequence of scopes.
pub open spec fn scopes(v: Seq<Scope>) -> Seq<Map<Seq<char>, Seq<char>>> {
    Seq::new(v.len(), |i: int| v[i]@)
}

/// Turns each string into a row of characters.
pub fn rows_of(lines: &Vec<String>) -> (out: Vec<Vec<char>>)
    ensures
        rows(out@) == texts(lines@),
{
    let mut out: Vec<Vec<char>> = Vec::new();
    let mut i: usize = 0;
    while i < lines.len()
        invariant
            i <= lines@.len(),
            out@.len() == i,
            forall|k: int| 0 <= k < i ==> (#[trigger] out@[k])@ == lines@[k]@,
        decreases lines.len() - i,
    {
        out.push(chars_of(lines[i].as_str()));
        i += 1;
    }
    assert(rows(out@) =~= texts(lines@));
    out
}

/// Finds the first closing line at or after `from`.
fn find_terminator(lines: &Vec<Vec<char>>, from: usize) -> (r: usize)
    requires
        from <= lines@.len(),
    ensures
        r == block_end(rows(lines@), from as int),
        from <= r <= lines@.len(),
{
    let closing: Vec<char> = vec![';', ';', ';'];
    assert(closing@ =~= terminator());
    let mut i: usize = from;
    while i < lines.len()
        invariant
            from <= i <= lines@.len(),
            closing@ == terminator(),
            block_end(rows(lines@), from as int) == block_end(rows(lines@), i as int),
        decreases lines.len() - i,
    {
        assert(rows(lines@)[i as int] == lines@[i as int]@);
        if same_text(lines[i].as_slice(), closing.as_slice()) {
            return i;
        }
        i += 1;
    }
    i
}

/// Finds the line that closes the folder body which starts at `from`.
fn find_body_end(lines: &Vec<Vec<char>>, from: usize) -> (r: usize)
    requires
        from <= lines@.len(),
    ensures
        r == body_end(rows(lines@), from as int),
        from <= r <= lines@.len(),
{
    let closing: Vec<char> = vec![';', ';', ';'];
    assert(closing@ =~= terminator());
    let files = chars_of("for_each_md_in_current_folder");
    let mut i: usize = from;
    while i < lines.len()
        invariant
            from <= i <= lines@.len(),
            closing@ == terminator(),
            files@ == files_directive(),
            body_end(rows(lines@), from as int) == body_end(rows(lines@), i as int),
        decreases lines.len() - i,
    {
        assert(rows(lines@)[i as int] == lines@[i as int]@);
        if same_text(lines[i].as_slice(), closing.as_slice()) {
            return i;
        }
        if same_text(lines[i].as_slice(), files.as_slice()) {
            let inner = find_terminator(lines, i + 1);
            if inner >= lines.len() {
                return lines.len();
            }
            i = inner + 1;
        } else {
            i += 1;
        }
    }
    i
}

/// Appends the lines `lines[from..to]` to `out`, each with its placeholders
/// replaced from `scope`.
fn emit_stamped(
    out: &mut Vec<SourceLine>,
    lines: &Vec<Vec<char>>,
    from: usize,
    to: usize,
    scope: &Scope,
)
    requires
        from <= to <= lines@.len(),
    ensures
        sourced(final(out)@) == sourced(old(out)@) + stamped(
            rows(lines@),
            from as int,
            to as int,
            scope@,
        ),
{
    let ghost all = stamped(rows(lines@), from as int, to as int, scope@);
    let mut j: usize = from;
    assert(sourced(out@) =~= sourced(old(out)@) + all.take(0));
    while j < to
        invariant
            from <= j <= to <= lines@.len(),
            all == stamped(rows(lines@), from as int, to as int, scope@),
            sourced(out@) == sourced(old(out)@) + all.take(j - from),
        decreases to - j,
    {
        let line = SourceLine { origin: j, text: substitute(scope, lines[j].as_slice()) };
        proof {
            lemma_sourced_push(out@, line);
            assert(rows(lines@)[j as int] == lines@[j as int]@);
            assert(all.take(j - from + 1) =~= all.take(j - from).push(line@));
        }
        out.push(line);
        j += 1;
        assert(sourced(out@) =~= sourced(old(out)@) + all.take(j - from));
    }
    assert(all.take(j - from) =~= all);
}

/// Appends what the folder body `lines[from..end]` puts out for one folder.
fn emit_folder(
    out: &mut Vec<SourceLine>,
    lines: &Vec<Vec<char>>,
    from: usize,
    end: usize,
    metadata: &Scope,
    files: &Vec<Scope>,
)
    requires
        from <= end < lines@.len(),
        body_end(rows(lines@), from as int) == end,
    ensures
        sourced(final(out)@) == sourced(old(out)@) + folder_lines(
            rows(lines@),
            from as int,
            end as int,
            FolderModel { metadata: metadata@, files: scopes(files@) },
        ),
{
    let ghost all = rows(lines@);
    let ghost folder = FolderModel { metadata: metadata@, files: scopes(files@) };
    let ghost start = sourced(out@);
    let ghost done = Seq::<Sourced>::empty();
    let directive = chars_of("for_each_md_in_current_folder");
    let mut j: usize = from;
    assert(sourced(out@) =~= start + done);
    assert(done + folder_lines(all, from as int, end as int, folder) =~= folder_lines(
        all,
        from as int,
        end as int,
        folder,
    ));
    while j < end
        invariant
            from <= j <= end < lines@.len(),
            all == rows(lines@),
            folder == (FolderModel { metadata: metadata@, files: scopes(files@) }),
            directive@ == files_directive(),
            body_end(all, j as int) == end,
            sourced(out@) == start + done,
            folder_lines(all, from as int, end as int, folder) == done + folder_lines(
                all,
                j as int,
                end as int,
                folder,
            ),
        decreases end - j,
    {
        assert(all[j as int] == lines@[j as int]@);
        if same_text(lines[j].as_slice(), directive.as_slice()) {
            let inner = find_terminator(lines, j + 1);
            proof {
                lemma_block_end(all, j + 1);
                if inner < all.len() {
                    lemma_body_end(all, inner + 1);
                }
            }
            assert(j < inner < end);
            let ghost mid = sourced(out@);
            let mut f: usize = 0;
            assert(folder.files.take(0) =~= Seq::<Map<Seq<char>, Seq<char>>>::empty());
            assert(sourced(out@) =~= mid + per_file(all, j + 1, inner as int, folder.files.take(0)));
            while f < files.len()
                invariant
                    f <= files@.len(),
                    j < inner < end < lines@.len(),
                    all == rows(lines@),
                    folder.files == scopes(files@),
                    sourced(out@) == mid + per_file(
                        all,
                        j + 1,
                        inner as int,
                        folder.files.take(f as int),
                    ),
                decreases files.len() - f,
            {
                proof {
                    assert(folder.files.take(f + 1).drop_last() =~= folder.files.take(f as int));
                    assert(folder.files.take(f + 1).last() == files@[f as int]@);
                }
                emit_stamped(out, lines, j + 1, inner, &files[f]);
                f += 1;
                assert(sourced(out@) =~= mid + per_file(
                    all,
                    j + 1,
                    inner as int,
                    folder.files.take(f as int),
                ));
            }
            proof {
                assert(folder.files.take(f as int) =~= folder.files);
                let piece = per_file(all, j + 1, inner as int, folder.files);
                assert(folder_lines(all, j as int, end as int, folder) == piece + folder_lines(
                    all,
                    inner + 1,
                    end as int,
                    folder,
                ));
                assert(sourced(out@) =~= start + (done + piece));
                assert((done + piece) + folder_lines(all, inner + 1, end as int, folder) =~= done
                    + (piece + folder_lines(all, inner + 1, end as int, folder)));
                done = done + piece;
            }
            j = inner + 1;
        } else {
            let line = SourceLine { origin: j, text: substitute(metadata, lines[j].as_slice()) };
            proof {
                lemma_sourced_push(out@, line);
                lemma_body_end(all, j + 1);
                let piece = seq![line@];
                assert(folder_lines(all, j as int, end as int, folder) == piece + folder_lines(
                    all,
                    j + 1,
                    end as int,
                    folder,
                ));
                assert((done + piece) + folder_lines(all, j + 1, end as int, folder) =~= done + (
                piece + folder_lines(all, j + 1, end as int, folder)));
                assert(sourced(out@).push(line@) =~= start + (done + piece));
                done = done + piece;
            }
            out.push(line);
            j += 1;
        }
    }
    assert(done + folder_lines(all, end as int, end as int, folder) =~= done);
}

/// Builds the metadata of a folder and of each of its source files.
fn load(entry: &FolderEntry) -> (r: (Scope, Vec<Scope>))
    ensures
        r.0@ == entry@.metadata,
        scopes(r.1@) == entry@.files,
{
    let metadata = match &entry.settings {
        Some(text) => folder_metadata(entry.url.as_str(), Some(text.as_str())),
        None => folder_metadata(entry.url.as_str(), None),
    };
    let mut files: Vec<Scope> = Vec::new();
    let mut i: usize = 0;
    while i < entry.files.len()
        invariant
            i <= entry.files@.len(),
            files@.len() == i,
            forall|k: int| 0 <= k < i ==> (#[trigger] files@[k])@ == entry.files@[k]@,
        decreases entry.files.len() - i,
    {
        let file = &entry.files[i];
        files.push(file_metadata(file.url.as_str(), file.text.as_str()));
        i += 1;
    }
    assert(scopes(files@) =~= entry@.files);
    (metadata, files)
}

/// Expands the folder iterations of `lines` and keeps with each line that
/// is put out the index of the line that it came from. The `k`-th iteration
/// is expanded over the folders of `listings[k]`.
pub fn expand_lines(lines: &Vec<String>, listings: &Vec<Vec<FolderEntry>>) -> (r: Result<
    Vec<SourceLine>,
    DirectiveError,
>)
    ensures
        match r {
            Ok(out) => expanded_lines(texts(lines@), listed(listings@)) == Ok::<
                Seq<Sourced>,
                DirectiveError,
            >(sourced(out@)),
            Err(e) => expanded_lines(texts(lines@), listed(listings@)) == Err::<
                Seq<Sourced>,
                DirectiveError,
            >(e),
        },
{
    let chars = rows_of(lines);
    let ghost all = rows(chars@);
    let ghost given = listed(listings@);
    let directive = chars_of("for_each_folder");
    let mut out: Vec<SourceLine> = Vec::new();
    let mut i: usize = 0;
    let mut k: usize = 0;
    assert(sourced(out@) =~= Seq::<Sourced>::empty());
    assert(followed_by(sourced(out@), expanded_from(all, given, 0, 0)) == expanded_lines(
        all,
        given,
    )) by {
        match expanded_from(all, given, 0, 0) {
            Ok(tail) => {
                assert(sourced(out@) + tail =~= tail);
            },
            Err(e) => {},
        }
    }
    while i < chars.len()
        invariant
            i <= chars@.len(),
            k <= i,
            all == rows(chars@),
            all == texts(lines@),
            given == listed(listings@),
            directive@ == folder_directive(),
            expanded_lines(all, given) == followed_by(
                sourced(out@),
                expanded_from(all, given, i as int, k as int),
            ),
        decreases lines.len() - i,
    {
        let line = &chars[i];
        assert(all[i as int] == line@);
        let ghost before = sourced(out@);
        if matches_at(line.as_slice(), directive.as_slice(), 0) {
            let parts = split(line.as_slice(), '=');
            let end = find_body_end(&chars, i + 1);
            let fault = if !(parts.len() >= 2 && parts[1].len() > 0) {
                Some(DirectiveErrorKind::MissingPath)
            } else if end >= chars.len() {
                Some(DirectiveErrorKind::Unterminated)
            } else if k >= listings.len() {
                Some(DirectiveErrorKind::MissingListing)
            } else {
                None
            };
            assert(fault == directive_fault(all, i as int, k as int, given.len() as int));
            match fault {
                Some(kind) => {
                    return Err(DirectiveError { line: i, kind });
                },
                None => {},
            }
            let listing = &listings[k];
            let ghost models = given[k as int];
            let mut f: usize = 0;
            assert(models.take(0) =~= Seq::<FolderModel>::empty());
            assert(sourced(out@) =~= before + per_folder(all, i + 1, end as int, models.take(0)));
            while f < listing.len()
                invariant
                    f <= listing@.len(),
                    i < end < chars@.len(),
                    all == rows(chars@),
                    models == folders(listing@),
                    body_end(all, i + 1) == end,
                    sourced(out@) == before + per_folder(
                        all,
                        i + 1,
                        end as int,
                        models.take(f as int),
                    ),
                decreases listing.len() - f,
            {
                proof {
                    assert(models.take(f + 1).drop_last() =~= models.take(f as int));
                    assert(models.take(f + 1).last() == listing@[f as int]@);
                }
                let (metadata, files) = load(&listing[f]);
                assert(listing@[f as int]@ == (FolderModel {
                    metadata: metadata@,
                    files: scopes(files@),
                }));
                emit_folder(&mut out, &chars, i + 1, end, &metadata, &files);
                f += 1;
                assert(sourced(out@) =~= before + per_folder(
                    all,
                    i + 1,
                    end as int,
                    models.take(f as int),
                ));
            }
            proof {
                assert(models.take(f as int) =~= models);
                let piece = per_folder(all, i + 1, end as int, models);
                match expanded_from(all, given, end + 1, k + 1) {
                    Ok(tail) => {
                        assert(before + (piece + tail) =~= (before + piece) + tail);
                    },
                    Err(e) => {},
                }
            }
            assert(expanded_lines(all, given) == followed_by(
                sourced(out@),
                expanded_from(all, given, end + 1, k + 1),
            ));
            i = end + 1;
            k += 1;
        } else {
            let copy = SourceLine { origin: i, text: line.clone() };
            proof {
                lemma_sourced_push(out@, copy);
                match expanded_from(all, given, i + 1, k as int) {
                    Ok(tail) => {
                        assert(before + (seq![copy@] + tail) =~= before.push(copy@) + tail);
                    },
                    Err(e) => {},
                }
            }
            out.push(copy);
            i += 1;
            assert(sourced(out@) == before.push(copy@));
        }
    }
    proof {
        assert(sourced(out@) + Seq::<Sourced>::empty() =~= sourced(out@));
    }
    Ok(out)
}

/// Expands the folder iterations of `lines`. The `k`-th iteration is
/// expanded over the folders of `listings[k]`.
pub fn expand(lines: &Vec<String>, listings: &Vec<Vec<FolderEntry>>) -> (r: Result<
    Vec<String>,
    DirectiveError,
>)
    ensures
        match r {
            Ok(out) => expanded(texts(lines@), listed(listings@)) == Ok::<
                Seq<Seq<char>>,
                DirectiveError,
            >(texts(out@)),
            Err(e) => expanded(texts(lines@), listed(listings@)) == Err::<
                Seq<Seq<char>>,
                DirectiveError,
            >(e),
        },
{
    match expand_lines(lines, listings) {
        Ok(out) => Ok(strip(&out)),
        Err(e) => Err(e),
    }
}

/// What a folder iteration asks to be read from disk: the index of the
/// iteration's line, the path whose subfolders it visits, and whether its
/// body iterates over their source files.
#[derive(Debug, PartialEq, Eq)]
pub struct FolderRequest {
    pub line: usize,
    pub path: String,
    pub wants_files: bool,
}

/// The mathematical value of a [`FolderRequest`].
pub struct RequestModel {
    pub line: nat,
    pub path: Seq<char>,
    pub wants_files: bool,
}

impl View for FolderRequest {
    type V = RequestModel;

    open spec fn view(&self) -> RequestModel {
        RequestModel { line: self.line as nat, path: self.path@, wants_files: self.wants_files }
    }
}

/// The values of a sequence of requests.
pub open spec fn requests_view(v: Seq<FolderRequest>) -> Seq<RequestModel> {
    Seq::new(v.len(), |i: int| v[i]@)
}

/// What the folder iteration at line `i` asks for.
pub open spec fn request_at(lines: Seq<Seq<char>>, i: int) -> RequestModel {
    RequestModel {
        line: i as nat,
        path: folder_path(lines[i])->0,
        wants_files: lines.subrange(i + 1, body_end(lines, i + 1)).contains(files_directive()),
    }
}

/// The requests `head` followed by the requests of `rest`, or the error of
/// `rest`.
pub open spec fn prefixed(
    head: Seq<RequestModel>,
    rest: Result<Seq<RequestModel>, DirectiveError>,
) -> Result<Seq<RequestModel>, DirectiveError> {
    match rest {
        Ok(tail) => Ok(head + tail),
        Err(e) => Err(e),
    }
}

/// The requests of the folder iterations from line `i` on, in order, or the
/// first iteration that names no path or is not closed.
pub open spec fn requested_from(lines: Seq<Seq<char>>, i: int) -> Result<
    Seq<RequestModel>,
    DirectiveError,
>
    decreases lines.len() - i,
{
    if i < 0 || i >= lines.len() {
        Ok(Seq::empty())
    } else if starts_with(lines[i], folder_directive()) {
        match directive_fault(lines, i, 0, 1) {
            Some(kind) => Err(DirectiveError { line: i as usize, kind: kind }),
            None => prefixed(
                seq![request_at(lines, i)],
                requested_from(lines, body_end(lines, i + 1) + 1),
            ),
        }
    } else {
        requested_from(lines, i + 1)
    }
}

/// The requests of all folder iterations of `lines`, in order.
pub open spec fn requested(lines: Seq<Seq<char>>) -> Result<Seq<RequestModel>, DirectiveError> {
    requested_from(lines, 0)
}

/// From line `i` on, where `k` listings are used up and the rest suffice
/// for the requests still to come, the expansion succeeds.
proof fn lemma_requests_suffice_from(
    lines: Seq<Seq<char>>,
    listings: Seq<Seq<FolderModel>>,
    i: int,
    k: int,
)
    requires
        0 <= i,
        0 <= k,
        requested_from(lines, i) is Ok,
        k + requested_from(lines, i)->Ok_0.len() <= listings.len(),
    ensures
        expanded_from(lines, listings, i, k) is Ok,
    decreases lines.len() - i,
{
    if i < lines.len() {
        if starts_with(lines[i], folder_directive()) {
            let end = body_end(lines, i + 1);
            let rest = requested_from(lines, end + 1);
            assert(directive_fault(lines, i, 0, 1) is None);
            assert(rest is Ok);
            assert(requested_from(lines, i)->Ok_0.len() == 1 + rest->Ok_0.len());
            assert(directive_fault(lines, i, k, listings.len() as int) is None);
            lemma_requests_suffice_from(lines, listings, end + 1, k + 1);
        } else {
            lemma_requests_suffice_from(lines, listings, i + 1, k);
        }
    }
}

/// Where the requests of the lines can be listed and a listing is handed
/// in for each of them, the expansion succeeds.
pub proof fn lemma_requests_suffice(lines: Seq<Seq<char>>, listings: Seq<Seq<FolderModel>>)
    requires
        requested(lines) is Ok,
        requested(lines)->Ok_0.len() <= listings.len(),
    ensures
        expanded_lines(lines, listings) is Ok,
        expanded(lines, listings) is Ok,
{
    lemma_requests_suffice_from(lines, listings, 0, 0);
}

/// Whether one of `lines[from..to]` starts a file iteration.
fn has_files_directive(lines: &Vec<Vec<char>>, from: usize, to: usize) -> (r: bool)
    requires
        from <= to <= lines@.len(),
    ensures
        r == rows(lines@).subrange(from as int, to as int).contains(files_directive()),
{
    let directive = chars_of("for_each_md_in_current_folder");
    let ghost body = rows(lines@).subrange(from as int, to as int);
    let mut j: usize = from;
    while j < to
        invariant
            from <= j <= to <= lines@.len(),
            directive@ == files_directive(),
            body == rows(lines@).subrange(from as int, to as int),
            forall|m: int| 0 <= m < j - from ==> body[m] != files_directive(),
        decreases to - j,
    {
        assert(body[j - from] == lines@[j as int]@);
        if same_text(lines[j].as_slice(), directive.as_slice()) {
            return true;
        }
        j += 1;
    }
    false
}

/// Lists what the folder iterations of `lines` ask to be read, in the order
/// in which the expansion uses the listings.
pub fn requests(lines: &Vec<String>) -> (r: Result<Vec<FolderRequest>, DirectiveError>)
    ensures
        match r {
            Ok(out) => requested(texts(lines@)) == Ok::<Seq<RequestModel>, DirectiveError>(
                requests_view(out@),
            ),
            Err(e) => requested(texts(lines@)) == Err::<Seq<RequestModel>, DirectiveError>(e),
        },
{
    let chars = rows_of(lines);
    let ghost all = rows(chars@);
    let directive = chars_of("for_each_folder");
    let mut out: Vec<FolderRequest> = Vec::new();
    let mut i: usize = 0;
    assert(requests_view(out@) =~= Seq::<RequestModel>::empty());
    assert(requested(all) == prefixed(requests_view(out@), requested_from(all, 0))) by {
        match requested_from(all, 0) {
            Ok(tail) => {
                assert(requests_view(out@) + tail =~= tail);
            },
            Err(e) => {},
        }
    }
    while i < chars.len()
        invariant
            i <= chars@.len(),
            all == rows(chars@),
            all == texts(lines@),
            directive@ == folder_directive(),
            requested(all) == prefixed(requests_view(out@), requested_from(all, i as int)),
        decreases chars.len() - i,
    {
        let line = &chars[i];
        assert(all[i as int] == line@);
        let ghost before = requests_view(out@);
        if matches_at(line.as_slice(), directive.as_slice(), 0) {
            let parts = split(line.as_slice(), '=');
            let end = find_body_end(&chars, i + 1);
            let fault = if !(parts.len() >= 2 && parts[1].len() > 0) {
                Some(DirectiveErrorKind::MissingPath)
            } else if end >= chars.len() {
                Some(DirectiveErrorKind::Unterminated)
            } else {
                None
            };
            assert(fault == directive_fault(all, i as int, 0, 1));
            match fault {
                Some(kind) => {
                    return Err(DirectiveError { line: i, kind });
                },
                None => {},
            }
            let request = FolderRequest {
                line: i,
                path: string_of(parts[1].as_slice()),
                wants_files: has_files_directive(&chars, i + 1, end),
            };
            proof {
                assert(request@ == request_at(all, i as int));
                assert(requests_view(out@.push(request)) =~= before.push(request@));
                match requested_from(all, end + 1) {
                    Ok(tail) => {
                        assert(before + (seq![request@] + tail) =~= before.push(request@) + tail);
                    },
                    Err(e) => {},
                }
            }
            out.push(request);
            i = end + 1;
        } else {
            i += 1;
        }
    }
    proof {
        assert(requests_view(out@) + Seq::<RequestModel>::empty() =~= requests_view(out@));
    }
    Ok(out)
}

} // verus!
