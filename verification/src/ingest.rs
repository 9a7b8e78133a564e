//! The rules of an ingest pass that do not need the disk or the database: where a file's copy
//! goes in the mirror, what key it is remembered under, when it can be skipped, and the upsert
//! statements.

use vstd::prelude::*;
use vstd::string::*;
use crate::backup::BucketKind;
use crate::config::{join_path, joined};
use crate::text::{concat, owned, same_text};

verus! {

/// Where the copy of a backup file goes: `<data_dir>/raw/<device_id>/<relative>`.
pub fn mirror_path(data_dir: &str, device_id: &str, relative: &str) -> (r: String)
    ensures
        r@ == joined(joined(joined(data_dir@, "raw"@), device_id@), relative@),
{
    let raw = join_path(data_dir, "raw");
    let device = join_path(raw.as_str(), device_id);
    join_path(device.as_str(), relative)
}

/// The key in `ingest_files`: the path relative to the device dir, e.g.
/// `samples/2026-W36.json.gz`.
pub fn relative_path(kind: BucketKind, file_name: &str) -> (r: String)
    ensures
        r@ == kind.dir_name_of() + "/"@ + file_name@,
{
    let head = concat(kind.dir_name(), "/");
    concat(head.as_str(), file_name)
}

/// What `ingest_files` remembers of a file: the device it came from, its mtime in
/// milliseconds and its length.
pub struct SeenFile {
    pub device_id: String,
    pub mtime: i64,
    pub len: i64,
}

/// Whether a file can be skipped: it was ingested before from the same device, with the same
/// mtime and length. A different device means a different backup lineage, so nothing stored
/// about the old one says anything about this file.
pub fn is_unchanged(seen: &Option<SeenFile>, device_id: &str, mtime: i64, len: i64) -> (r: bool)
    ensures
        r == match seen {
            Some(s) => s.device_id@ == device_id@ && s.mtime == mtime && s.len == len,
            None => false,
        },
{
    match seen {
        Some(s) => same_text(s.device_id.as_str(), device_id) && s.mtime == mtime && s.len == len,
        None => false,
    }
}

/// `parts` with `separator` between each two.
pub open spec fn joined_with(parts: Seq<Seq<char>>, separator: Seq<char>) -> Seq<char>
    decreases parts.len(),
{
    if parts.len() == 0 {
        Seq::empty()
    } else if parts.len() == 1 {
        parts[0]
    } else {
        joined_with(parts.drop_last(), separator) + separator + parts.last()
    }
}

/// Appends `part` to a text that holds `joined_with` of the parts so far.
fn append_part(out: &mut String, part: &str, separator: &str, first: bool)
    ensures
        final(out)@ == if first {
            old(out)@ + part@
        } else {
            old(out)@ + separator@ + part@
        },
{
    if !first {
        out.append(separator);
    }
    out.append(part);
}

/// The errors of a pass, one per line, or nothing when there were none.
pub fn joined_errors(errors: &Vec<String>) -> (r: Option<String>)
    ensures
        match r {
            Some(text) => errors@.len() > 0 && text@ == joined_with(
                errors@.map_values(|e: String| e@),
                "\n"@,
            ),
            None => errors@.len() == 0,
        },
{
    if errors.len() == 0 {
        return None;
    }
    let ghost views = errors@.map_values(|e: String| e@);
    let mut out = String::new();
    let mut i: usize = 0;
    while i < errors.len()
        invariant
            i <= errors@.len(),
            views == errors@.map_values(|e: String| e@),
            out@ == joined_with(views.take(i as int), "\n"@),
        decreases errors.len() - i,
    {
        assert(views.take(i + 1).drop_last() =~= views.take(i as int));
        assert(views.take(i + 1).last() == errors@[i as int]@);
        if i == 0 {
            assert(views.take(0) =~= Seq::<Seq<char>>::empty());
            assert(out@ =~= Seq::<char>::empty());
        }
        append_part(&mut out, errors[i].as_str(), "\n", i == 0);
        proof {
            if i == 0 {
                assert(out@ =~= views.take(1)[0]);
            }
        }
        i = i + 1;
    }
    assert(views.take(errors@.len() as int) =~= views);
    Some(out)
}

/// The assignments an upsert makes: every column but `id`, taken from the incoming row.
pub open spec fn assignments_of(columns: Seq<Seq<char>>) -> Seq<Seq<char>>
    decreases columns.len(),
{
    if columns.len() == 0 {
        Seq::empty()
    } else {
        let before = assignments_of(columns.drop_last());
        let c = columns.last();
        if c == "id"@ {
            before
        } else {
            before.push(c + " = excluded."@ + c)
        }
    }
}

/// The upsert statement for `columns` of `table`, guarded on `last_saved`: Arc rewrites whole
/// buckets retroactively, and an older rendering of a record must never overwrite a newer one.
/// A conflict that fails the guard reports zero changed rows, which is exactly what the run
/// counters want to see.
pub open spec fn upsert_statement(table: Seq<char>, columns: Seq<Seq<char>>) -> Seq<char> {
    "INSERT INTO "@ + table + " ("@ + joined_with(columns, ", "@) + ") VALUES ("@ + joined_with(
        Seq::new(columns.len(), |i: int| "?"@),
        ", "@,
    ) + ") ON CONFLICT(id) DO UPDATE SET "@ + joined_with(assignments_of(columns), ", "@)
        + " WHERE excluded.last_saved > "@ + table + ".last_saved"@
}

pub fn upsert_sql(table: &str, columns: &[&str]) -> (r: String)
    ensures
        r@ == upsert_statement(table@, columns@.map_values(|c: &str| c@)),
{
    let ghost views = columns@.map_values(|c: &str| c@);
    let mut names = String::new();
    let mut placeholders = String::new();
    let mut assignments = String::new();
    let mut assigned: usize = 0;
    let mut i: usize = 0;
    while i < columns.len()
        invariant
            i <= columns@.len(),
            views == columns@.map_values(|c: &str| c@),
            names@ == joined_with(views.take(i as int), ", "@),
            placeholders@ == joined_with(Seq::new(i as nat, |k: int| "?"@), ", "@),
            assignments@ == joined_with(assignments_of(views.take(i as int)), ", "@),
            assigned == assignments_of(views.take(i as int)).len(),
            assigned <= i,
        decreases columns.len() - i,
    {
        let ghost upto = views.take(i + 1);
        assert(upto.drop_last() =~= views.take(i as int));
        assert(upto.last() == columns@[i as int]@);
        let column = columns[i];
        if i == 0 {
            assert(views.take(0) =~= Seq::<Seq<char>>::empty());
        }
        append_part(&mut names, column, ", ", i == 0);
        append_part(&mut placeholders, "?", ", ", i == 0);
        proof {
            let q = Seq::new((i + 1) as nat, |k: int| "?"@);
            assert(q.drop_last() =~= Seq::new(i as nat, |k: int| "?"@));
            if i == 0 {
                assert(names@ =~= upto[0]);
            }
        }
        if !same_text(column, "id") {
            let a = concat(column, " = excluded.");
            let assignment = concat(a.as_str(), column);
            proof {
                if assigned == 0 {
                    assert(assignments@ =~= Seq::<char>::empty());
                }
            }
            append_part(&mut assignments, assignment.as_str(), ", ", assigned == 0);
            assigned = assigned + 1;
            proof {
                let before = assignments_of(views.take(i as int));
                assert(assignments_of(upto) == before.push(assignment@));
                assert(before.push(assignment@).drop_last() =~= before);
                assert(before.push(assignment@).last() == assignment@);
                if before.len() == 0 {
                    assert(assignments@ =~= before.push(assignment@)[0]);
                }
            }
        } else {
            assert(assignments_of(upto) == assignments_of(views.take(i as int)));
        }
        i = i + 1;
    }
    assert(views.take(columns@.len() as int) =~= views);
    let s1 = concat("INSERT INTO ", table);
    let s2 = concat(s1.as_str(), " (");
    let s3 = concat(s2.as_str(), names.as_str());
    let s4 = concat(s3.as_str(), ") VALUES (");
    let s5 = concat(s4.as_str(), placeholders.as_str());
    let s6 = concat(s5.as_str(), ") ON CONFLICT(id) DO UPDATE SET ");
    let s7 = concat(s6.as_str(), assignments.as_str());
    let s8 = concat(s7.as_str(), " WHERE excluded.last_saved > ");
    let s9 = concat(s8.as_str(), table);
    let out = concat(s9.as_str(), ".last_saved");
    out
}

/// The `ingest_runs` row for one pass, plus how long it took.
#[derive(Debug, Clone)]
pub struct RunSummary {
    pub id: i64,
    pub started_at: i64,
    pub finished_at: i64,
    pub device_id: Option<String>,
    pub schema_version: i64,
    pub last_backup_date: Option<i64>,
    pub files_seen: i64,
    pub files_ingested: i64,
    pub places_upserted: i64,
    pub items_upserted: i64,
    pub samples_upserted: i64,
    pub days_recomputed: i64,
    pub error: Option<String>,
    pub elapsed_ms: i64,
}

/// What a pass has done so far.
#[derive(Debug, Clone, Copy)]
pub struct Counters {
    pub files_seen: i64,
    pub files_ingested: i64,
    pub places: i64,
    pub items: i64,
    pub samples: i64,
    pub days: i64,
}

impl Default for Counters {
    /// Nothing counted yet.
    fn default() -> (r: Self)
        ensures
            r.files_seen == 0 && r.files_ingested == 0,
            r.places == 0 && r.items == 0 && r.samples == 0 && r.days == 0,
    {
        Counters { files_seen: 0, files_ingested: 0, places: 0, items: 0, samples: 0, days: 0 }
    }
}

/// How a pass ends: its row as it started, the clock readings at its end, what it counted and
/// the errors it met, one per line.
pub fn run_summary(
    id: i64,
    started_at: i64,
    finished_at: i64,
    elapsed_ms: i64,
    device_id: Option<String>,
    last_backup_date: Option<i64>,
    counters: Counters,
    errors: &Vec<String>,
) -> (r: RunSummary)
    ensures
        r.id == id,
        r.started_at == started_at,
        r.finished_at == finished_at,
        r.elapsed_ms == elapsed_ms,
        r.device_id == device_id,
        r.schema_version == crate::schema::SCHEMA_VERSION,
        r.last_backup_date == last_backup_date,
        r.files_seen == counters.files_seen,
        r.files_ingested == counters.files_ingested,
        r.places_upserted == counters.places,
        r.items_upserted == counters.items,
        r.samples_upserted == counters.samples,
        r.days_recomputed == counters.days,
        match r.error {
            Some(text) => errors@.len() > 0 && text@ == joined_with(
                errors@.map_values(|e: String| e@),
                "\n"@,
            ),
            None => errors@.len() == 0,
        },
{
    RunSummary {
        id,
        started_at,
        finished_at,
        device_id,
        schema_version: crate::schema::SCHEMA_VERSION,
        last_backup_date,
        files_seen: counters.files_seen,
        files_ingested: counters.files_ingested,
        places_upserted: counters.places,
        items_upserted: counters.items,
        samples_upserted: counters.samples,
        days_recomputed: counters.days,
        error: joined_errors(errors),
        elapsed_ms,
    }
}

} // verus!
