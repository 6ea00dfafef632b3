//! The import of Apple Notes into a directory notebook: file names, the
//! per-note decisions, the tally of outcomes and the summary message.
use vstd::prelude::*;

use crate::calendar::{format_date, formatted_date};
use crate::decode::{decode_note_data, note_decoded};
use crate::hex::{hex_decode_panics, hex_slices_cleanly};
use crate::markdown::{markdown_is_defined, note_markdown, note_to_markdown};
use crate::text::{decimal, is_blank, push_all, push_decimal, push_signed_zero_padded, signed_zero_padded,
    all_whitespace, chars_of, is_whitespace, lemma_trim_ends, lemma_trim_idempotent, lemma_trim_is_slice,
    string_from_chars, trim, trim_chars,
};

verus! {

/// Characters that may not appear in a file name.
pub open spec fn is_forbidden_in_file_name(c: char) -> bool {
    c == '/' || c == '\\' || c == ':' || c == '*' || c == '?' || c == '"' || c == '<' || c == '>'
        || c == '|'
}

/// `name` with each forbidden character replaced by '-'.
pub open spec fn dashed(name: Seq<char>) -> Seq<char> {
    name.map_values(|c: char| if is_forbidden_in_file_name(c) { '-' } else { c })
}

/// The file-name-safe form of `name`: forbidden characters become '-',
/// then surrounding whitespace is removed.
pub open spec fn sanitized(name: Seq<char>) -> Seq<char> {
    trim(dashed(name))
}

/// Makes a string usable as a file name: replaces the characters that file
/// systems reject with '-' and trims surrounding whitespace.
pub fn sanitize_filename(name: &str) -> (s: String)
    ensures
        s@ == sanitized(name@),
{
    let chars = chars_of(name);
    let mut mapped: Vec<char> = Vec::new();
    let mut i: usize = 0;
    while i < chars.len()
        invariant
            i <= chars@.len(),
            chars@ == name@,
            mapped@ == dashed(chars@.take(i as int)),
        decreases chars@.len() - i,
    {
        let c = chars[i];
        let d = if c == '/' || c == '\\' || c == ':' || c == '*' || c == '?' || c == '"' || c == '<'
            || c == '>' || c == '|' {
            '-'
        } else {
            c
        };
        mapped.push(d);
        i = i + 1;
        proof {
            assert(mapped@ =~= dashed(chars@.take(i as int)));
        }
    }
    proof {
        assert(chars@.take(chars@.len() as int) =~= chars@);
    }
    string_from_chars(&trim_chars(&mapped))
}


/// Law: a sanitized name holds none of the forbidden characters and has
/// no whitespace at either end.
pub proof fn lemma_sanitized_is_safe(name: Seq<char>)
    ensures
        forall|i: int| 0 <= i < sanitized(name).len() ==> !is_forbidden_in_file_name(#[trigger] sanitized(name)[i]),
        sanitized(name).len() > 0 ==> !is_whitespace(sanitized(name)[0]) && !is_whitespace(sanitized(name).last()),
{
    let d = dashed(name);
    lemma_trim_is_slice(d);
    lemma_trim_ends(d);
    let (a, b) = choose|a: int, b: int| 0 <= a <= b <= d.len() && trim(d) == d.subrange(a, b);
    assert forall|i: int| 0 <= i < sanitized(name).len() implies !is_forbidden_in_file_name(#[trigger] sanitized(name)[i]) by {
        assert(sanitized(name)[i] == d[a + i]);
    }
}

/// Law: sanitizing a sanitized name changes nothing.
pub proof fn lemma_sanitize_idempotent(name: Seq<char>)
    ensures
        sanitized(sanitized(name)) == sanitized(name),
{
    let t = sanitized(name);
    lemma_sanitized_is_safe(name);
    assert(dashed(t) =~= t);
    lemma_trim_idempotent(dashed(name));
}


/// Law: sanitizing maps exactly the nine characters / \\ : * ? " < > |
/// to '-', keeps every other character, and trims whitespace from both
/// ends; so a name without those characters and without surrounding
/// whitespace is kept as it is.
pub proof fn lemma_sanitize_maps_only_forbidden(name: Seq<char>)
    ensures
        sanitized(name) == trim(
            Seq::new(
                name.len(),
                |i: int|
                    if name[i] == '/' || name[i] == '\\' || name[i] == ':' || name[i] == '*' || name[i] == '?'
                        || name[i] == '"' || name[i] == '<' || name[i] == '>' || name[i] == '|' {
                        '-'
                    } else {
                        name[i]
                    },
            ),
        ),
        (forall|i: int|
            0 <= i < name.len() ==> name[i] != '/' && name[i] != '\\' && name[i] != ':' && name[i] != '*'
                && name[i] != '?' && name[i] != '"' && name[i] != '<' && name[i] != '>' && name[i] != '|')
            && trim(name) == name ==> sanitized(name) == name,
{
    assert(dashed(name) =~= Seq::new(
        name.len(),
        |i: int|
            if name[i] == '/' || name[i] == '\\' || name[i] == ':' || name[i] == '*' || name[i] == '?'
                || name[i] == '"' || name[i] == '<' || name[i] == '>' || name[i] == '|' {
                '-'
            } else {
                name[i]
            },
    ));
    if forall|i: int|
        0 <= i < name.len() ==> name[i] != '/' && name[i] != '\\' && name[i] != ':' && name[i] != '*'
            && name[i] != '?' && name[i] != '"' && name[i] != '<' && name[i] != '>' && name[i] != '|' {
        assert(dashed(name) =~= name);
    }
}

/// Settings of an import.
#[derive(Clone, Debug, PartialEq)]
pub struct ImportConfig {
    /// Date prefix format for file names, e.g. "YYYY-MM-DD"; empty for none.
    pub date_format: String,
    /// Import notes from the trash too.
    pub include_trashed: bool,
    /// Name of the output directory notebook.
    pub notebook_name: String,
}

/// Outcome of an import.
#[derive(Clone, Debug, PartialEq)]
pub struct ImportResult {
    /// No note failed.
    pub success: bool,
    /// Human-readable summary.
    pub message: String,
    /// Notes written to new files.
    pub imported: usize,
    /// Notes written over older files.
    pub updated: usize,
    /// Notes without content.
    pub skipped: usize,
    /// Notes whose file was already up to date.
    pub duplicates: usize,
    /// Notes that could not be decoded or written.
    pub failed: usize,
    /// Name of the notebook directory written to.
    pub notebook_name: String,
}

/// One note as listed by a preview.
#[derive(Clone, Debug, PartialEq)]
pub struct NotePreview {
    /// Note title.
    pub title: String,
    /// Name of the folder holding the note.
    pub folder: String,
    /// Creation date, "YYYY-MM-DD".
    pub creation_date: String,
    /// The note is in a trash folder.
    pub trashed: bool,
}

/// A folder row of the notes database.
#[derive(Clone, Debug, PartialEq)]
pub struct FolderRow {
    /// Primary key, if present.
    pub pk: Option<i64>,
    /// Folder title, if present.
    pub title: Option<String>,
    /// Folder type (1 is the trash), if present.
    pub folder_type: Option<i64>,
}

/// Folder titles by primary key, and the trash folders, in row order.
pub struct FolderIndex {
    /// Primary keys of the folders.
    pub ids: Vec<i64>,
    /// Titles of the folders, in the order of `ids`.
    pub titles: Vec<String>,
    /// Primary keys of the trash folders.
    pub trash: Vec<i64>,
}

/// Primary key of a folder row (0 when absent).
pub open spec fn row_pk(row: FolderRow) -> i64 {
    match row.pk {
        Some(k) => k,
        None => 0,
    }
}

/// The trash folders among `rows`, in order.
pub open spec fn trash_keys(rows: Seq<FolderRow>) -> Seq<i64>
    decreases rows.len(),
{
    if rows.len() == 0 {
        Seq::empty()
    } else {
        let before = trash_keys(rows.drop_last());
        let row = rows.last();
        if row.folder_type == Some(1i64) {
            before.push(row_pk(row))
        } else {
            before
        }
    }
}

/// The title of the last folder with key `id`, or `fallback`.
pub open spec fn folder_title(ids: Seq<i64>, titles: Seq<Seq<char>>, id: i64, fallback: Seq<char>) -> Seq<char>
    decreases ids.len(),
{
    if ids.len() == 0 || titles.len() == 0 {
        fallback
    } else if ids.last() == id {
        titles.last()
    } else {
        folder_title(ids.drop_last(), titles.drop_last(), id, fallback)
    }
}

/// The index of the folder rows: keys (0 when absent), titles (`untitled`
/// when absent) and trash folders (type 1).
pub fn index_folders(rows: &Vec<FolderRow>, untitled: &str) -> (index: FolderIndex)
    ensures
        index.ids@.len() == rows@.len(),
        index.titles@.len() == rows@.len(),
        forall|i: int| 0 <= i < rows@.len() ==> #[trigger] index.ids@[i] == row_pk(rows@[i]),
        forall|i: int|
            0 <= i < rows@.len() ==> #[trigger] index.titles@[i]@ == match rows@[i].title {
                Some(t) => t@,
                None => untitled@,
            },
        index.trash@ == trash_keys(rows@),
{
    let mut ids: Vec<i64> = Vec::new();
    let mut titles: Vec<String> = Vec::new();
    let mut trash: Vec<i64> = Vec::new();
    let mut i: usize = 0;
    while i < rows.len()
        invariant
            i <= rows@.len(),
            ids@.len() == i,
            titles@.len() == i,
            forall|j: int| 0 <= j < i ==> #[trigger] ids@[j] == row_pk(rows@[j]),
            forall|j: int|
                0 <= j < i ==> #[trigger] titles@[j]@ == match rows@[j].title {
                    Some(t) => t@,
                    None => untitled@,
                },
            trash@ == trash_keys(rows@.take(i as int)),
        decreases rows@.len() - i,
    {
        let row = &rows[i];
        let pk = match row.pk {
            Some(k) => k,
            None => 0,
        };
        let title = match &row.title {
            Some(t) => string_from_chars(&chars_of(t.as_str())),
            None => string_from_chars(&chars_of(untitled)),
        };
        ids.push(pk);
        titles.push(title);
        let is_trash = match row.folder_type {
            Some(t) => t == 1,
            None => false,
        };
        if is_trash {
            trash.push(pk);
        }
        proof {
            assert(rows@.take(i + 1).drop_last() =~= rows@.take(i as int));
            assert(rows@.take(i + 1).last() == rows@[i as int]);
        }
        i = i + 1;
    }
    proof {
        assert(rows@.take(rows@.len() as int) =~= rows@);
    }
    FolderIndex { ids, titles, trash }
}

/// The title of the folder with key `id` (the last row with that key), or
/// `fallback`.
pub fn folder_name(index: &FolderIndex, id: i64, fallback: &str) -> (name: String)
    requires
        index.ids@.len() == index.titles@.len(),
    ensures
        name@ == folder_title(index.ids@, index.titles.deep_view(), id, fallback@),
{
    let n = index.ids.len();
    let ghost ids = index.ids@;
    let ghost titles = index.titles.deep_view();
    let mut k = n;
    proof {
        assert(ids.take(n as int) =~= ids);
        assert(titles.take(n as int) =~= titles);
    }
    while k > 0
        invariant
            k <= n,
            n <= ids.len(),
            n <= titles.len(),
            ids == index.ids@,
            titles == index.titles.deep_view(),
            folder_title(ids, titles, id, fallback@) == folder_title(ids.take(k as int), titles.take(k as int), id, fallback@),
        decreases k,
    {
        if index.ids[k - 1] == id {
            proof {
                assert(ids.take(k as int).last() == ids[k - 1]);
                assert(titles.take(k as int).last() == titles[k - 1]);
            }
            return string_from_chars(&chars_of(index.titles[k - 1].as_str()));
        }
        proof {
            assert(ids.take(k as int).drop_last() =~= ids.take(k - 1));
            assert(titles.take(k as int).drop_last() =~= titles.take(k - 1));
        }
        k = k - 1;
    }
    string_from_chars(&chars_of(fallback))
}


/// The preview of one note row: its title ("(untitled)" when absent), its
/// folder's title ("Notes" when unknown), its creation date and whether
/// its folder (0 when absent) is a trash folder.
pub fn note_preview(title: Option<String>, folder_id: Option<i64>, creation_ms: i64, folders: &FolderIndex) -> (p: NotePreview)
    requires
        folders.ids@.len() == folders.titles@.len(),
    ensures
        p.title@ == match title {
            Some(t) => t@,
            None => "(untitled)"@,
        },
        p.folder@ == folder_title(folders.ids@, folders.titles.deep_view(), match folder_id {
            Some(f) => f,
            None => 0,
        }, "Notes"@),
        p.creation_date@ == formatted_date(creation_ms as int, "YYYY-MM-DD"@),
        p.trashed == folders.trash@.contains(match folder_id {
            Some(f) => f,
            None => 0,
        }),
{
    let title = match title {
        Some(t) => t,
        None => string_from_chars(&chars_of("(untitled)")),
    };
    let folder_id = match folder_id {
        Some(f) => f,
        None => 0,
    };
    let folder = folder_name(folders, folder_id, "Notes");
    let creation_date = format_date(creation_ms, "YYYY-MM-DD");
    let mut trashed = false;
    let mut i: usize = 0;
    while i < folders.trash.len()
        invariant
            i <= folders.trash@.len(),
            trashed == exists|j: int| 0 <= j < i && folders.trash@[j] == folder_id,
        decreases folders.trash@.len() - i,
    {
        if folders.trash[i] == folder_id {
            trashed = true;
        }
        i = i + 1;
    }
    NotePreview { title, folder, creation_date, trashed }
}

/// Decimal text of a signed integer.
pub open spec fn int_text(v: int) -> Seq<char> {
    signed_zero_padded(v, 0)
}

/// The keys joined with commas.
pub open spec fn comma_joined(keys: Seq<i64>) -> Seq<char>
    decreases keys.len(),
{
    if keys.len() == 0 {
        Seq::empty()
    } else if keys.len() == 1 {
        int_text(keys[0] as int)
    } else {
        comma_joined(keys.drop_last()) + seq![','] + int_text(keys.last() as int)
    }
}

/// The SQL condition that leaves out notes in trash folders: empty when
/// the trash is included or there is none.
pub open spec fn trash_condition(include_trashed: bool, trash: Seq<i64>) -> Seq<char> {
    if !include_trashed && trash.len() > 0 {
        " AND zfolder NOT IN ("@ + comma_joined(trash) + seq![')']
    } else {
        Seq::empty()
    }
}

/// Builds the SQL condition that excludes the trash folders.
pub fn trash_clause(include_trashed: bool, trash: &Vec<i64>) -> (c: String)
    ensures
        c@ == trash_condition(include_trashed, trash@),
{
    if include_trashed || trash.len() == 0 {
        return string_from_chars(&Vec::new());
    }
    let mut joined: Vec<char> = Vec::new();
    let mut i: usize = 0;
    while i < trash.len()
        invariant
            i <= trash@.len(),
            joined@ == comma_joined(trash@.take(i as int)),
        decreases trash@.len() - i,
    {
        let ghost before = joined@;
        if i > 0 {
            joined.push(',');
        }
        push_signed_zero_padded(&mut joined, trash[i], 0);
        proof {
            assert(trash@.take(i + 1).drop_last() =~= trash@.take(i as int));
            assert(trash@.take(i + 1).last() == trash@[i as int]);
            if i == 0 {
                assert(joined@ =~= comma_joined(trash@.take(i + 1)));
            } else {
                assert(joined@ =~= comma_joined(trash@.take(i + 1)));
            }
        }
        i = i + 1;
    }
    proof {
        assert(trash@.take(trash@.len() as int) =~= trash@);
    }
    let mut c = chars_of(" AND zfolder NOT IN (");
    push_all(&mut c, &joined);
    c.push(')');
    proof {
        assert(c@ =~= trash_condition(include_trashed, trash@));
    }
    string_from_chars(&c)
}

/// Query for the folders of the notes database.
pub open spec fn folders_sql(folder_key: i64) -> Seq<char> {
    "SELECT z_pk, ztitle2, zfoldertype FROM ziccloudsyncingobject WHERE z_ent = "@ + int_text(folder_key as int)
}

/// Query for the titles, folders and creation times of the notes.
pub open spec fn preview_sql(note_key: i64, trash: Seq<char>) -> Seq<char> {
    "SELECT z_pk, ztitle1, zfolder, COALESCE(zcreationdate3, zcreationdate2, zcreationdate1, 0) as creation_ts FROM ziccloudsyncingobject WHERE z_ent = "@
        + int_text(note_key as int) + " AND ztitle1 IS NOT NULL"@ + trash
}

/// Query for the notes with their protobuf data (as hex) and times.
pub open spec fn import_sql(note_key: i64, trash: Seq<char>) -> Seq<char> {
    "SELECT nd.z_pk, hex(nd.zdata) as zhexdata, zcso.ztitle1, zcso.zfolder, COALESCE(zcso.zcreationdate3, zcso.zcreationdate2, zcso.zcreationdate1, 0) as creation_ts, COALESCE(zcso.zmodificationdate1, 0) as mod_ts FROM zicnotedata AS nd INNER JOIN ziccloudsyncingobject AS zcso ON zcso.z_pk = nd.znote WHERE zcso.z_ent = "@
        + int_text(note_key as int) + " AND zcso.ztitle1 IS NOT NULL"@ + trash
}

/// The query for the folders with entity key `folder_key`.
pub fn folders_query(folder_key: i64) -> (q: String)
    ensures
        q@ == folders_sql(folder_key),
{
    let mut q = chars_of("SELECT z_pk, ztitle2, zfoldertype FROM ziccloudsyncingobject WHERE z_ent = ");
    push_signed_zero_padded(&mut q, folder_key, 0);
    string_from_chars(&q)
}

/// The query a preview lists the notes with.
pub fn preview_query(note_key: i64, trash: &str) -> (q: String)
    ensures
        q@ == preview_sql(note_key, trash@),
{
    let mut q = chars_of(
        "SELECT z_pk, ztitle1, zfolder, COALESCE(zcreationdate3, zcreationdate2, zcreationdate1, 0) as creation_ts FROM ziccloudsyncingobject WHERE z_ent = ",
    );
    push_signed_zero_padded(&mut q, note_key, 0);
    push_all(&mut q, &chars_of(" AND ztitle1 IS NOT NULL"));
    push_all(&mut q, &chars_of(trash));
    string_from_chars(&q)
}

/// The query an import reads the notes with.
pub fn import_query(note_key: i64, trash: &str) -> (q: String)
    ensures
        q@ == import_sql(note_key, trash@),
{
    let mut q = chars_of(
        "SELECT nd.z_pk, hex(nd.zdata) as zhexdata, zcso.ztitle1, zcso.zfolder, COALESCE(zcso.zcreationdate3, zcso.zcreationdate2, zcso.zcreationdate1, 0) as creation_ts, COALESCE(zcso.zmodificationdate1, 0) as mod_ts FROM zicnotedata AS nd INNER JOIN ziccloudsyncingobject AS zcso ON zcso.z_pk = nd.znote WHERE zcso.z_ent = ",
    );
    push_signed_zero_padded(&mut q, note_key, 0);
    push_all(&mut q, &chars_of(" AND zcso.ztitle1 IS NOT NULL"));
    push_all(&mut q, &chars_of(trash));
    string_from_chars(&q)
}

/// A row of the entity-key table of the notes database.
#[derive(Clone, Debug, PartialEq)]
pub struct EntityRow {
    /// Entity name, if present.
    pub name: Option<String>,
    /// Entity number, if present.
    pub ent: Option<i64>,
}

/// The number of the entity `name`: that of the last row holding both the
/// name and a number.
pub open spec fn entity_number(rows: Seq<EntityRow>, name: Seq<char>) -> Option<i64>
    decreases rows.len(),
{
    if rows.len() == 0 {
        None
    } else {
        let row = rows.last();
        match (row.name, row.ent) {
            (Some(n), Some(e)) if n@ == name => Some(e),
            _ => entity_number(rows.drop_last(), name),
        }
    }
}

/// Looks up the entity number of `name` in the entity-key rows.
pub fn entity_key(rows: &Vec<EntityRow>, name: &str) -> (k: Option<i64>)
    ensures
        k == entity_number(rows@, name@),
{
    let target = chars_of(name);
    let mut i = rows.len();
    proof {
        assert(rows@.take(i as int) =~= rows@);
    }
    while i > 0
        invariant
            i <= rows@.len(),
            target@ == name@,
            entity_number(rows@, name@) == entity_number(rows@.take(i as int), name@),
        decreases i,
    {
        let row = &rows[i - 1];
        proof {
            assert(rows@.take(i as int).last() == rows@[i - 1]);
            assert(rows@.take(i as int).drop_last() =~= rows@.take(i - 1));
        }
        if let (Some(n), Some(e)) = (&row.name, row.ent) {
            if crate::text::chars_equal(&chars_of(n.as_str()), &target) {
                return Some(e);
            }
        }
        i = i - 1;
    }
    None
}


/// File names of an imported note.
pub struct NoteFileNames {
    /// Name of the Markdown file.
    pub file_name: String,
    /// Name of the backup written before an older file is overwritten.
    pub backup_name: String,
}

/// The date prefix of a file name: the creation date in `date_format`
/// followed by a space, or nothing when the format is empty.
pub open spec fn date_prefix(date_format: Seq<char>, creation_ms: int) -> Seq<char> {
    if date_format.len() == 0 {
        Seq::empty()
    } else {
        formatted_date(creation_ms, date_format) + seq![' ']
    }
}

/// The file names of the note titled `title` created at `creation_ms`:
/// date prefix, sanitized title, then ".md" (or ".backup.md").
pub fn note_file_names(date_format: &str, creation_ms: i64, title: &str) -> (names: NoteFileNames)
    ensures
        names.file_name@ == date_prefix(date_format@, creation_ms as int) + sanitized(title@) + ".md"@,
        names.backup_name@ == date_prefix(date_format@, creation_ms as int) + sanitized(title@) + ".backup.md"@,
{
    let mut prefix: Vec<char> = Vec::new();
    let format = chars_of(date_format);
    if format.len() > 0 {
        let date = format_date(creation_ms, date_format);
        prefix = chars_of(date.as_str());
        prefix.push(' ');
    }
    let safe_title = sanitize_filename(title);
    let safe = chars_of(safe_title.as_str());
    let mut file = Vec::new();
    push_all(&mut file, &prefix);
    push_all(&mut file, &safe);
    push_all(&mut file, &chars_of(".md"));
    let mut backup = Vec::new();
    push_all(&mut backup, &prefix);
    push_all(&mut backup, &safe);
    push_all(&mut backup, &chars_of(".backup.md"));
    proof {
        assert(prefix@ == date_prefix(date_format@, creation_ms as int));
    }
    NoteFileNames { file_name: string_from_chars(&file), backup_name: string_from_chars(&backup) }
}

/// What to do with a note whose file may already exist.
#[derive(PartialEq, Eq, Structural, Clone, Copy, Debug)]
pub enum WriteDecision {
    /// No file yet: write a new one.
    Create,
    /// The note changed after the file was written: back the file up, then
    /// overwrite it.
    Overwrite,
    /// The file is up to date: leave it.
    Unchanged,
}

/// A note's file is written when there is none, overwritten when the note
/// changed after the file was written, and kept otherwise.
pub open spec fn write_decision(note_modified_ms: i64, existing_file_ms: Option<i64>) -> WriteDecision {
    match existing_file_ms {
        None => WriteDecision::Create,
        Some(f) => if note_modified_ms > f {
            WriteDecision::Overwrite
        } else {
            WriteDecision::Unchanged
        },
    }
}

/// Law: with no file the note's file is created; with a file, it is
/// overwritten exactly when the note's modification time, as a full
/// millisecond count, is later than the file's, and kept otherwise; so a
/// later note time never turns an overwrite into keeping the file.
pub proof fn lemma_write_decision(note_ms: i64, later_note_ms: i64, file_ms: i64)
    ensures
        write_decision(note_ms, None) == WriteDecision::Create,
        (write_decision(note_ms, Some(file_ms)) == WriteDecision::Overwrite) == (note_ms as int > file_ms as int),
        (write_decision(note_ms, Some(file_ms)) == WriteDecision::Unchanged) == (note_ms as int <= file_ms as int),
        note_ms <= later_note_ms && write_decision(note_ms, Some(file_ms)) == WriteDecision::Overwrite
            ==> write_decision(later_note_ms, Some(file_ms)) == WriteDecision::Overwrite,
{
}

/// Chooses between creating, overwriting and keeping a note's file, from
/// the note's modification time and that of an existing file.
pub fn decide_write(note_modified_ms: i64, existing_file_ms: Option<i64>) -> (d: WriteDecision)
    ensures
        d == write_decision(note_modified_ms, existing_file_ms),
{
    match existing_file_ms {
        None => WriteDecision::Create,
        Some(f) => if note_modified_ms > f {
            WriteDecision::Overwrite
        } else {
            WriteDecision::Unchanged
        },
    }
}

/// A note's content as the import sees it.
pub enum NoteContent {
    /// The Markdown to write.
    Markdown(String),
    /// The note converts to blank text.
    Blank,
    /// The note could not be decoded; the error message.
    Undecodable(String),
}

/// The error message for a note that could not be decoded.
pub open spec fn decode_failure_message(title: Seq<char>, error: Seq<char>) -> Seq<char> {
    "Failed to decode '"@ + title + "': "@ + error
}

/// The conversion of a note's data has a defined outcome: no slice cuts a
/// character and the Markdown conversion is defined.
pub open spec fn render_defined(hexdata: &str) -> bool {
    &&& !hex_decode_panics(hexdata)
    &&& note_decoded(hexdata) matches Ok(m) ==> note_markdown(m) is Some
}

/// Decodes a note's hexadecimal data and converts it to Markdown. `None`
/// exactly where the conversion has no defined outcome (see
/// `render_defined`); otherwise blank Markdown is
/// reported as `Blank` and a decoding error as `Undecodable` with its
/// message.
pub fn render_note(hexdata: &str, title: &str) -> (c: Option<NoteContent>)
    ensures
        c is None <==> !render_defined(hexdata),
        c matches Some(content) ==> match (content, note_decoded(hexdata)) {
            (NoteContent::Markdown(md), Ok(m)) => note_markdown(m) == Some(md@) && !all_whitespace(md@),
            (NoteContent::Blank, Ok(m)) => note_markdown(m) matches Some(md) && all_whitespace(md),
            (NoteContent::Undecodable(msg), Err(e)) => msg@ == decode_failure_message(title@, e),
            _ => false,
        },
{
    if !hex_slices_cleanly(hexdata) {
        return None;
    }
    match decode_note_data(hexdata) {
        Ok(note) => {
            if !markdown_is_defined(&note) {
                return None;
            }
            let md = note_to_markdown(&note);
            if is_blank(&chars_of(md.as_str())) {
                Some(NoteContent::Blank)
            } else {
                Some(NoteContent::Markdown(md))
            }
        },
        Err(e) => {
            let mut msg = chars_of("Failed to decode '");
            push_all(&mut msg, &chars_of(title));
            push_all(&mut msg, &chars_of("': "));
            push_all(&mut msg, &chars_of(e.as_str()));
            Some(NoteContent::Undecodable(string_from_chars(&msg)))
        },
    }
}

/// The message for a note file that could not be written.
pub fn write_failure_message(file_name: &str, error: &str) -> (m: String)
    ensures
        m@ == "Failed to write "@ + file_name@ + ": "@ + error@,
{
    let mut msg = chars_of("Failed to write ");
    push_all(&mut msg, &chars_of(file_name));
    push_all(&mut msg, &chars_of(": "));
    push_all(&mut msg, &chars_of(error));
    string_from_chars(&msg)
}

/// The message for a failed copy of the notes database: macOS reports
/// missing Full Disk Access as OS error 1.
pub open spec fn copy_failure_message(os_error: Option<i32>, error: Seq<char>) -> Seq<char> {
    if os_error == Some(1i32) {
        "Full Disk Access is required to read Apple Notes. Open System Settings → Privacy & Security → Full Disk Access, then enable it for this app and try again."@
    } else {
        "Failed to copy database: "@ + error
    }
}

/// Explains a failed copy of the notes database.
pub fn copy_error_message(os_error: Option<i32>, error: &str) -> (m: String)
    ensures
        m@ == copy_failure_message(os_error, error@),
{
    if os_error == Some(1i32) {
        string_from_chars(&chars_of(
            "Full Disk Access is required to read Apple Notes. Open System Settings → Privacy & Security → Full Disk Access, then enable it for this app and try again.",
        ))
    } else {
        let mut msg = chars_of("Failed to copy database: ");
        push_all(&mut msg, &chars_of(error));
        string_from_chars(&msg)
    }
}


/// Counts of the outcomes of an import so far, and the first error.
pub struct ImportTally {
    /// Notes written to new files.
    pub imported: usize,
    /// Notes written over older files.
    pub updated: usize,
    /// Notes without content.
    pub skipped: usize,
    /// Notes whose file was up to date.
    pub duplicates: usize,
    /// Notes that failed.
    pub failed: usize,
    /// The first failure's message.
    pub first_error: Option<String>,
}

/// Number of notes a tally has counted.
pub open spec fn tally_total(t: ImportTally) -> int {
    t.imported + t.updated + t.skipped + t.duplicates + t.failed
}

/// "n label" when `n` is positive, as a list of at most one part.
pub open spec fn count_part(n: usize, label: Seq<char>) -> Seq<Seq<char>> {
    if n > 0 {
        seq![decimal(n as nat) + seq![' '] + label]
    } else {
        Seq::empty()
    }
}

/// The parts of the summary, in order.
pub open spec fn summary_parts(t: ImportTally) -> Seq<Seq<char>> {
    count_part(t.imported, "imported"@) + count_part(t.updated, "updated"@) + count_part(t.duplicates, "unchanged"@)
        + count_part(t.skipped, "empty"@) + count_part(t.failed, "failed"@)
}

/// The parts joined with `sep`.
pub open spec fn joined(parts: Seq<Seq<char>>, sep: Seq<char>) -> Seq<char>
    decreases parts.len(),
{
    if parts.len() == 0 {
        Seq::empty()
    } else if parts.len() == 1 {
        parts[0]
    } else {
        joined(parts.drop_last(), sep) + sep + parts.last()
    }
}

/// The summary of an import: the counts that are positive, or "No notes
/// found.", then the first error's detail when there was one.
pub open spec fn summary_message(t: ImportTally) -> Seq<char> {
    let parts = summary_parts(t);
    let head = if parts.len() == 0 {
        "No notes found."@
    } else {
        joined(parts, seq![',', ' '])
    };
    match t.first_error {
        Some(e) => head + ". Detail: "@ + e@,
        None => head,
    }
}

impl ImportTally {
    /// A tally with nothing counted.
    pub fn new() -> (t: ImportTally)
        ensures
            tally_total(t) == 0,
            t.imported == 0 && t.updated == 0 && t.skipped == 0 && t.duplicates == 0 && t.failed == 0,
            t.first_error is None,
    {
        ImportTally { imported: 0, updated: 0, skipped: 0, duplicates: 0, failed: 0, first_error: None }
    }

    /// Counts a note without content.
    pub fn record_skipped(&mut self)
        requires
            tally_total(*old(self)) < usize::MAX,
        ensures
            *final(self) == (ImportTally { skipped: (old(self).skipped + 1) as usize, ..*old(self) }),
            tally_total(*final(self)) == tally_total(*old(self)) + 1,
    {
        self.skipped = self.skipped + 1;
    }

    /// Counts a note whose file was up to date.
    pub fn record_unchanged(&mut self)
        requires
            tally_total(*old(self)) < usize::MAX,
        ensures
            *final(self) == (ImportTally { duplicates: (old(self).duplicates + 1) as usize, ..*old(self) }),
            tally_total(*final(self)) == tally_total(*old(self)) + 1,
    {
        self.duplicates = self.duplicates + 1;
    }

    /// Counts a note written to its file: an update when the file existed.
    pub fn record_written(&mut self, is_update: bool)
        requires
            tally_total(*old(self)) < usize::MAX,
        ensures
            is_update ==> *final(self) == (ImportTally { updated: (old(self).updated + 1) as usize, ..*old(self) }),
            !is_update ==> *final(self) == (ImportTally { imported: (old(self).imported + 1) as usize, ..*old(self) }),
            tally_total(*final(self)) == tally_total(*old(self)) + 1,
    {
        if is_update {
            self.updated = self.updated + 1;
        } else {
            self.imported = self.imported + 1;
        }
    }

    /// Counts a failed note; its message is kept if it is the first.
    pub fn record_failure(&mut self, message: String)
        requires
            tally_total(*old(self)) < usize::MAX,
        ensures
            final(self).failed == old(self).failed + 1,
            final(self).imported == old(self).imported,
            final(self).updated == old(self).updated,
            final(self).skipped == old(self).skipped,
            final(self).duplicates == old(self).duplicates,
            final(self).first_error == match old(self).first_error {
                Some(e) => Some(e),
                None => Some(message),
            },
            tally_total(*final(self)) == tally_total(*old(self)) + 1,
    {
        self.failed = self.failed + 1;
        if self.first_error.is_none() {
            self.first_error = Some(message);
        }
    }

    /// The first step for a note row: a row without data counts as an empty
    /// note and needs nothing more (`None`); otherwise the names of the
    /// note's file.
    pub fn begin_note(&mut self, hexdata: &str, date_format: &str, creation_ms: i64, title: &str) -> (r: Option<
        NoteFileNames,
    >)
        requires
            tally_total(*old(self)) < usize::MAX,
        ensures
            match r {
                None => hexdata@.len() == 0 && *final(self) == (ImportTally {
                    skipped: (old(self).skipped + 1) as usize,
                    ..*old(self)
                }),
                Some(names) => {
                    &&& hexdata@.len() > 0
                    &&& *final(self) == *old(self)
                    &&& names.file_name@ == date_prefix(date_format@, creation_ms as int) + sanitized(title@) + ".md"@
                    &&& names.backup_name@ == date_prefix(date_format@, creation_ms as int) + sanitized(title@)
                        + ".backup.md"@
                },
            },
    {
        if chars_of(hexdata).len() == 0 {
            self.record_skipped();
            None
        } else {
            Some(note_file_names(date_format, creation_ms, title))
        }
    }

    /// Whether to write a note's file, from the note's modification time and
    /// that of an existing file; an up-to-date file counts as unchanged.
    pub fn check_file(&mut self, note_modified_ms: i64, existing_file_ms: Option<i64>) -> (d: WriteDecision)
        requires
            tally_total(*old(self)) < usize::MAX,
        ensures
            d == write_decision(note_modified_ms, existing_file_ms),
            d == WriteDecision::Unchanged ==> *final(self) == (ImportTally {
                duplicates: (old(self).duplicates + 1) as usize,
                ..*old(self)
            }),
            d != WriteDecision::Unchanged ==> *final(self) == *old(self),
    {
        let d = decide_write(note_modified_ms, existing_file_ms);
        if d == WriteDecision::Unchanged {
            self.record_unchanged();
        }
        d
    }

    /// The Markdown to write for a note's content, if any: blank content
    /// counts as an empty note, an undecodable note as a failure.
    pub fn record_content(&mut self, content: NoteContent) -> (r: Option<String>)
        requires
            tally_total(*old(self)) < usize::MAX,
        ensures
            match content {
                NoteContent::Markdown(md) => r == Some(md) && *final(self) == *old(self),
                NoteContent::Blank => r is None && *final(self) == (ImportTally {
                    skipped: (old(self).skipped + 1) as usize,
                    ..*old(self)
                }),
                NoteContent::Undecodable(msg) => r is None && *final(self) == (ImportTally {
                    failed: (old(self).failed + 1) as usize,
                    first_error: match old(self).first_error {
                        Some(e) => Some(e),
                        None => Some(msg),
                    },
                    ..*old(self)
                }),
            },
    {
        match content {
            NoteContent::Markdown(md) => Some(md),
            NoteContent::Blank => {
                self.record_skipped();
                None
            },
            NoteContent::Undecodable(msg) => {
                self.record_failure(msg);
                None
            },
        }
    }

    /// Counts the outcome of writing a note's file (`error` is the text of
    /// the write's error, if it failed); gives the failure message, if any.
    pub fn record_write(&mut self, is_update: bool, file_name: &str, error: Option<String>) -> (m: Option<String>)
        requires
            tally_total(*old(self)) < usize::MAX,
        ensures
            match error {
                None => m is None && (is_update ==> *final(self) == (ImportTally {
                    updated: (old(self).updated + 1) as usize,
                    ..*old(self)
                })) && (!is_update ==> *final(self) == (ImportTally {
                    imported: (old(self).imported + 1) as usize,
                    ..*old(self)
                })),
                Some(e) => match m {
                    Some(msg) => {
                        &&& msg@ == "Failed to write "@ + file_name@ + ": "@ + e@
                        &&& *final(self) == (ImportTally {
                            failed: (old(self).failed + 1) as usize,
                            first_error: match old(self).first_error {
                                Some(f) => Some(f),
                                None => Some(msg),
                            },
                            ..*old(self)
                        })
                    },
                    None => false,
                },
            },
    {
        match error {
            None => {
                self.record_written(is_update);
                None
            },
            Some(e) => {
                let msg = write_failure_message(file_name, e.as_str());
                self.record_failure(msg.clone());
                Some(msg)
            },
        }
    }

    /// The result of the import: successful when nothing failed, with the
    /// counts and the summary message.
    pub fn finish(self, notebook_name: String) -> (r: ImportResult)
        ensures
            r.success == (self.failed == 0),
            r.message@ == summary_message(self),
            r.imported == self.imported,
            r.updated == self.updated,
            r.skipped == self.skipped,
            r.duplicates == self.duplicates,
            r.failed == self.failed,
            r.notebook_name == notebook_name,
    {
        let ghost parts = summary_parts(self);
        let mut pieces: Vec<Vec<char>> = Vec::new();
        push_count(&mut pieces, self.imported, "imported");
        push_count(&mut pieces, self.updated, "updated");
        push_count(&mut pieces, self.duplicates, "unchanged");
        push_count(&mut pieces, self.skipped, "empty");
        push_count(&mut pieces, self.failed, "failed");
        proof {
            assert(pieces.deep_view() =~= parts);
        }
        let mut message = if pieces.len() == 0 {
            chars_of("No notes found.")
        } else {
            join_pieces(&pieces, &vec![',', ' '])
        };
        if let Some(e) = &self.first_error {
            push_all(&mut message, &chars_of(". Detail: "));
            push_all(&mut message, &chars_of(e.as_str()));
        }
        ImportResult {
            success: self.failed == 0,
            message: string_from_chars(&message),
            imported: self.imported,
            updated: self.updated,
            skipped: self.skipped,
            duplicates: self.duplicates,
            failed: self.failed,
            notebook_name,
        }
    }
}

fn push_count(pieces: &mut Vec<Vec<char>>, n: usize, label: &str)
    ensures
        final(pieces).deep_view() == old(pieces).deep_view() + count_part(n, label@),
{
    if n > 0 {
        let mut part: Vec<char> = Vec::new();
        push_decimal(&mut part, n as u64);
        part.push(' ');
        push_all(&mut part, &chars_of(label));
        let ghost before = pieces.deep_view();
        let ghost old_pieces = pieces@;
        let ghost pv = part@;
        let ghost pushed = part;
        proof {
            assert(part.deep_view() =~= pv);
            assert(pv =~= decimal(n as nat) + seq![' '] + label@);
        }
        pieces.push(part);
        proof {
            assert(pieces@ == old_pieces.push(pushed));
            assert(pieces.deep_view() =~= before + seq![pv]);
        }
    } else {
        proof {
            assert(old(pieces).deep_view() + count_part(n, label@) =~= old(pieces).deep_view());
        }
    }
}

fn join_pieces(pieces: &Vec<Vec<char>>, sep: &Vec<char>) -> (r: Vec<char>)
    ensures
        r@ == joined(pieces.deep_view(), sep@),
{
    let ghost parts = pieces.deep_view();
    let mut r: Vec<char> = Vec::new();
    let mut i: usize = 0;
    while i < pieces.len()
        invariant
            i <= pieces@.len(),
            parts == pieces.deep_view(),
            r@ == joined(parts.take(i as int), sep@),
        decreases pieces@.len() - i,
    {
        if i > 0 {
            push_all(&mut r, sep);
        }
        push_all(&mut r, &pieces[i]);
        proof {
            assert(parts.take(i + 1).drop_last() =~= parts.take(i as int));
            assert(parts.take(i + 1).last() == pieces@[i as int]@);
            if i == 0 {
                assert(r@ =~= joined(parts.take(i + 1), sep@));
            } else {
                assert(r@ =~= joined(parts.take(i + 1), sep@));
            }
        }
        i = i + 1;
    }
    proof {
        assert(parts.take(pieces@.len() as int) =~= parts);
    }
    r
}

} // verus!
