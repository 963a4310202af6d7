//! Placing media files into dated folders: where each file goes, which
//! files are skipped as already present, and the steps of each move.
use vstd::prelude::*;
use crate::date::{
    date_view, filename_stem_spec, from_exif_spec, from_exif_str,
    from_filename, from_filename_spec, subdir_spec, DateView, MediaDate,
};
use crate::number::{decimal, decimal_string, lemma_decimal_digits, lemma_decimal_injective};
use crate::path::{
    extension, extension_spec, file_name_spec, file_stem, file_stem_spec, join_path, join_spec,
    law_file_name_is_last_component, law_stem_and_extension, lemma_last_dot_before,
    lemma_last_dot_none, no_dot, no_slash,
};
use crate::scan::{ascii_lower, to_ascii_lower};
use crate::tui::PlannedMove;

verus! {

/// What an organize run is asked to do.
pub struct OrganizeOptions {
    pub src: String,
    pub dest: String,
    pub recursive: bool,
    /// The extensions that count as media.
    pub allowed_exts: Vec<String>,
    pub dry_run: bool,
    pub copy: bool,
}

/// How many files were moved (or copied), skipped as duplicates, or failed.
#[derive(Debug, Clone, Copy, PartialEq, Eq)]
pub struct OrganizeResult {
    pub moved: usize,
    pub skipped: usize,
    pub errors: usize,
}

/// The stem of a path used to look for a date in its name: the file stem,
/// and of that, once more, the stem (so `PXL_1.TS.mp4` gives `PXL_1`).
pub open spec fn date_stem_spec(path: Seq<char>) -> Option<Seq<char>> {
    match file_stem_spec(path) {
        None => None,
        Some(s) => match file_stem_spec(s) {
            Some(s2) => Some(s2),
            None => Some(s),
        },
    }
}

/// The date of a file: from its EXIF date text when that reads as a date,
/// otherwise from its file name.
pub open spec fn resolve_date_spec(path: Seq<char>, exif_date: Option<Seq<char>>) -> Option<
    DateView,
> {
    let from_exif = match exif_date {
        Some(s) => from_exif_spec(s),
        None => None,
    };
    if from_exif is Some {
        from_exif
    } else {
        match date_stem_spec(path) {
            Some(st) => from_filename_spec(st),
            None => None,
        }
    }
}

/// The view of an optional string.
pub open spec fn opt_text(s: Option<String>) -> Option<Seq<char>> {
    match s {
        Some(x) => Some(x@),
        None => None,
    }
}

/// Extract a MediaDate for a file: try EXIF first (`exif_date` is the
/// DateTimeOriginal text read from the file, if any), then fall back to the
/// file name, without its last two extensions.
pub fn resolve_date(path: &str, exif_date: Option<String>) -> (r: Option<MediaDate>)
    ensures
        date_view(r) == resolve_date_spec(path@, opt_text(exif_date)),
{
    if let Some(date_str) = &exif_date {
        if let Some(d) = from_exif_str(date_str.as_str()) {
            return Some(d);
        }
    }
    let stem = match file_stem(path) {
        None => None,
        Some(s) => match file_stem(s.as_str()) {
            Some(s2) => Some(s2),
            None => Some(s),
        },
    };
    match stem {
        Some(st) => from_filename(st.as_str()),
        None => None,
    }
}

/// Public alias of [`resolve_date`], used to build preview lists.
pub fn resolve_date_pub(path: &str, exif_date: Option<String>) -> (r: Option<MediaDate>)
    ensures
        date_view(r) == resolve_date_spec(path@, opt_text(exif_date)),
{
    resolve_date(path, exif_date)
}

/// Where a file goes: the folder, the new stem and the extension.
#[derive(Debug, Clone)]
pub struct Destination {
    pub subdir: String,
    pub stem: String,
    pub ext: String,
}

/// The folder for a file: `dest/YYYY/MM` when it has a date, `dest/unknown`
/// otherwise.
pub open spec fn dest_subdir_spec(dest: Seq<char>, date: Option<DateView>) -> Seq<char> {
    match date {
        Some(d) => join_spec(dest, subdir_spec(d)),
        None => join_spec(dest, "unknown"@),
    }
}

/// The new stem for a file: `YYYY.MM.DD_<time>` when it has a date,
/// otherwise its own stem, or `unknown` when it has none.
pub open spec fn dest_stem_spec(src_path: Seq<char>, date: Option<DateView>) -> Seq<char> {
    match date {
        Some(d) => filename_stem_spec(d),
        None => match file_stem_spec(src_path) {
            Some(s) => s,
            None => "unknown"@,
        },
    }
}

/// The extension kept for a file: its last extension in ASCII lower case,
/// or nothing.
pub open spec fn dest_ext_spec(src_path: Seq<char>) -> Seq<char> {
    match extension_spec(src_path) {
        Some(e) => ascii_lower(e),
        None => seq![],
    }
}

/// The folder, stem and extension for a file found at `src_path`.
pub fn plan_destination(dest: &str, src_path: &str, date: Option<MediaDate>) -> (r: Destination)
    ensures
        r.subdir@ == dest_subdir_spec(dest@, date_view(date)),
        r.stem@ == dest_stem_spec(src_path@, date_view(date)),
        r.ext@ == dest_ext_spec(src_path@),
{
    let ext = match extension(src_path) {
        Some(e) => to_ascii_lower(e.as_str()),
        None => String::new(),
    };
    let (subdir, stem) = match date {
        Some(d) => {
            let sd = d.subdir();
            (join_path(dest, sd.as_str()), d.filename_stem())
        },
        None => {
            let stem = match file_stem(src_path) {
                Some(s) => s,
                None => "unknown".to_owned(),
            };
            (join_path(dest, "unknown"), stem)
        },
    };
    Destination { subdir, stem, ext }
}

/// The file name tried at attempt `n` (from 1): `stem.ext`, then
/// `stem_2.ext`, `stem_3.ext`, ... (without `.ext` when there is no
/// extension).
pub open spec fn candidate_name(stem: Seq<char>, ext: Seq<char>, n: nat) -> Seq<char> {
    let base = if n <= 1 {
        stem
    } else {
        stem + seq!['_'] + decimal(n)
    };
    if ext.len() == 0 {
        base
    } else {
        base + seq!['.'] + ext
    }
}

/// The path tried at attempt `n`.
pub open spec fn candidate_path(dir: Seq<char>, stem: Seq<char>, ext: Seq<char>, n: nat) -> Seq<
    char,
> {
    join_spec(dir, candidate_name(stem, ext, n))
}

/// The file name tried at attempt `n`.
pub fn candidate_file_name(stem: &str, ext: &str, n: u32) -> (r: String)
    ensures
        r@ == candidate_name(stem@, ext@, n as nat),
{
    let mut r = String::new();
    r.append(stem);
    if n > 1 {
        r.append("_");
        let d = decimal_string(n as usize);
        r.append(d.as_str());
        proof {
            reveal_strlit("_");
        }
    }
    if ext.unicode_len() > 0 {
        r.append(".");
        r.append(ext);
        proof {
            reveal_strlit(".");
        }
    }
    r
}

/// The call `is_taken` reported `b` for a path whose text is `p`.
pub open spec fn reported<F: Fn(&str) -> bool>(is_taken: F, p: Seq<char>, b: bool) -> bool {
    exists|s: &str| s@ == p && call_ensures(is_taken, (s,), b)
}

/// `p` is the first candidate path (attempt `k`, from 1) that `is_taken`
/// reported free, every earlier one having been reported taken.
pub open spec fn first_free<F: Fn(&str) -> bool>(
    is_taken: F,
    dir: Seq<char>,
    stem: Seq<char>,
    ext: Seq<char>,
    p: Seq<char>,
) -> bool {
    exists|k: nat|
        #![trigger candidate_path(dir, stem, ext, k)]
        1 <= k <= u32::MAX && p == candidate_path(dir, stem, ext, k) && reported(is_taken, p, false)
            && forall|j: nat|
            1 <= j < k ==> reported(is_taken, #[trigger] candidate_path(dir, stem, ext, j), true)
}

/// Every attempt that a `u32` numbers was reported taken.
pub open spec fn none_free<F: Fn(&str) -> bool>(
    is_taken: F,
    dir: Seq<char>,
    stem: Seq<char>,
    ext: Seq<char>,
) -> bool {
    forall|j: nat|
        1 <= j <= u32::MAX ==> reported(is_taken, #[trigger] candidate_path(dir, stem, ext, j), true)
}

/// Build a destination path that doesn't collide with existing files.
/// Tries `dir/name.ext`, then `dir/name_2.ext`, `dir/name_3.ext`, ...; the
/// first path for which `is_taken` reports `false` is returned. When every
/// attempt that a `u32` numbers is reported taken, there is none.
pub fn unique_dest<F: Fn(&str) -> bool>(dir: &str, stem: &str, ext: &str, is_taken: F) -> (r:
    Option<String>)
    requires
        forall|s: &str| is_taken.requires((s,)),
    ensures
        r matches Some(p) ==> first_free(is_taken, dir@, stem@, ext@, p@),
        r is None ==> none_free(is_taken, dir@, stem@, ext@),
{
    let mut n: u32 = 1;
    loop
        invariant
            1 <= n <= u32::MAX,
            forall|s: &str| is_taken.requires((s,)),
            forall|j: nat|
                1 <= j < n ==> reported(is_taken, #[trigger] candidate_path(dir@, stem@, ext@, j), true),
        decreases u32::MAX - n,
    {
        let name = candidate_file_name(stem, ext, n);
        let candidate = join_path(dir, name.as_str());
        let taken = is_taken(candidate.as_str());
        assert(reported(is_taken, candidate@, taken));
        assert(candidate@ == candidate_path(dir@, stem@, ext@, n as nat));
        if !taken {
            return Some(candidate);
        }
        if n == u32::MAX {
            return None;
        }
        n = n + 1;
    }
}

/// The path recorded last for content `hash` among the recorded
/// `(hash, path)` pairs: a later record replaces an earlier one.
pub open spec fn lookup_seen(seen: Seq<(Seq<char>, Seq<char>)>, hash: Seq<char>) -> Option<
    Seq<char>,
>
    decreases seen.len(),
{
    if seen.len() == 0 {
        None
    } else if seen.last().0 == hash {
        Some(seen.last().1)
    } else {
        lookup_seen(seen.drop_last(), hash)
    }
}

/// A filesystem operation asked of the caller while moving one file.
#[derive(Debug, Clone, Copy, PartialEq, Eq)]
pub enum FsOp {
    /// Create the destination folder and its parents.
    CreateDir,
    /// Copy the source to the destination.
    Copy,
    /// Rename the source to the destination.
    Rename,
    /// Remove the source (after a copy that stands in for a rename).
    RemoveSource,
}

/// What comes next in moving one file.
#[derive(Debug, Clone, Copy, PartialEq, Eq)]
pub enum Step {
    /// Perform this operation and report whether it succeeded.
    Do(FsOp),
    /// The file was moved (or copied); it counts as moved.
    Moved,
    /// An operation failed; the file counts as an error.
    Failed,
}

/// The step after `op` succeeded (`ok`) or failed, in copy mode or in move
/// mode. A failed rename falls back to a copy followed by removing the
/// source (renames fail across filesystems).
pub open spec fn next_step(copy: bool, op: FsOp, ok: bool) -> Step {
    match op {
        FsOp::CreateDir => if !ok {
            Step::Failed
        } else if copy {
            Step::Do(FsOp::Copy)
        } else {
            Step::Do(FsOp::Rename)
        },
        FsOp::Copy => if !ok {
            Step::Failed
        } else if copy {
            Step::Moved
        } else {
            Step::Do(FsOp::RemoveSource)
        },
        FsOp::Rename => if ok {
            Step::Moved
        } else {
            Step::Do(FsOp::Copy)
        },
        FsOp::RemoveSource => if ok {
            Step::Moved
        } else {
            Step::Failed
        },
    }
}

/// The counts after a step: one more moved or one more error when the step
/// ends the file, the same counts otherwise.
pub open spec fn count_step(r: OrganizeResult, s: Step) -> OrganizeResult {
    match s {
        Step::Moved => OrganizeResult { moved: (r.moved + 1) as usize, ..r },
        Step::Failed => OrganizeResult { errors: (r.errors + 1) as usize, ..r },
        Step::Do(_) => r,
    }
}

/// The counts can take one more of each.
pub open spec fn counts_below_max(r: OrganizeResult) -> bool {
    r.moved < usize::MAX && r.skipped < usize::MAX && r.errors < usize::MAX
}

/// The recorded `(hash, path)` pairs once the content `pending` (if any) is
/// recorded.
pub open spec fn record(
    seen: Seq<(Seq<char>, Seq<char>)>,
    pending: Option<(Seq<char>, Seq<char>)>,
) -> Seq<(Seq<char>, Seq<char>)> {
    match pending {
        Some(p) => seen.push(p),
        None => seen,
    }
}

/// The state of an organize run: its options, the content hashes already
/// seen (in the destination or among moved sources), the content of the
/// source being moved, and the counts.
pub struct Organizer {
    pub opts: OrganizeOptions,
    /// The `(hash, path)` pairs recorded so far, the latest last.
    pub seen: Vec<(String, String)>,
    /// The `(hash, path)` of the source being moved, recorded in `seen` once
    /// the move succeeds.
    pub pending: Option<(String, String)>,
    pub result: OrganizeResult,
}

/// What checking a source did: `skip` is the path whose content it
/// duplicates, if any. A duplicate is counted as skipped; otherwise its
/// content (when its hash is known) waits to be recorded until it is moved.
pub open spec fn check_effect(
    a: Organizer,
    b: Organizer,
    src_path: Seq<char>,
    hash: Option<Seq<char>>,
    skip: Option<Seq<char>>,
) -> bool {
    &&& b.opts == a.opts
    &&& b.seen() == a.seen()
    &&& match hash {
        Some(h) => match lookup_seen(a.seen(), h) {
            Some(e) => skip == Some(e) && b.pending() is None && b.result == (OrganizeResult {
                skipped: (a.result.skipped + 1) as usize,
                ..a.result
            }),
            None => skip is None && b.pending() == Some((h, src_path)) && b.result == a.result,
        },
        None => skip is None && b.pending() is None && b.result == a.result,
    }
}

impl Organizer {
    /// The `(hash, path)` pairs recorded so far, in order.
    pub open spec fn seen(&self) -> Seq<(Seq<char>, Seq<char>)> {
        self.seen@.map_values(|e: (String, String)| (e.0@, e.1@))
    }

    /// The content waiting to be recorded.
    pub open spec fn pending(&self) -> Option<(Seq<char>, Seq<char>)> {
        match self.pending {
            Some(p) => Some((p.0@, p.1@)),
            None => None,
        }
    }

    /// A run with nothing seen and nothing counted.
    pub fn new(opts: OrganizeOptions) -> (r: Self)
        ensures
            r.opts == opts,
            r.seen().len() == 0,
            r.pending() is None,
            r.result == (OrganizeResult { moved: 0, skipped: 0, errors: 0 }),
    {
        let r = Organizer {
            opts,
            seen: Vec::new(),
            pending: None,
            result: OrganizeResult { moved: 0, skipped: 0, errors: 0 },
        };
        assert(r.seen() =~= Seq::<(Seq<char>, Seq<char>)>::empty());
        r
    }

    /// Records that a file with content `hash` is already at `path` in the
    /// destination, so that a source with the same content is skipped.
    pub fn remember_existing(&mut self, hash: String, path: String)
        ensures
            final(self).seen() == old(self).seen().push((hash@, path@)),
            final(self).opts == old(self).opts,
            final(self).pending() == old(self).pending(),
            final(self).result == old(self).result,
    {
        let ghost h = hash@;
        let ghost p = path@;
        self.seen.push((hash, path));
        assert(self.seen() =~= old(self).seen().push((h, p)));
    }

    /// Records the content of the source just moved, if any.
    fn record_pending(&mut self)
        ensures
            final(self).seen() == record(old(self).seen(), old(self).pending()),
            final(self).pending() is None,
            final(self).opts == old(self).opts,
            final(self).result == old(self).result,
    {
        let p = match &self.pending {
            Some(x) => Some((x.0.clone(), x.1.clone())),
            None => None,
        };
        if let Some((h, q)) = p {
            self.remember_existing(h, q);
        }
        self.pending = None;
    }

    /// The path recorded last for `hash`, if any.
    pub fn find_seen(&self, hash: &String) -> (r: Option<String>)
        ensures
            opt_text(r) == lookup_seen(self.seen(), hash@),
    {
        let mut i = self.seen.len();
        let ghost all = self.seen();
        assert(all.take(i as int) =~= all);
        while i > 0
            invariant
                i <= self.seen@.len(),
                all == self.seen(),
                lookup_seen(all, hash@) == lookup_seen(all.take(i as int), hash@),
            decreases i,
        {
            let e = &self.seen[i - 1];
            assert(all[i - 1] == (e.0@, e.1@));
            if e.0 == *hash {
                return Some(e.1.clone());
            }
            assert(all.take(i as int).drop_last() =~= all.take(i - 1));
            i -= 1;
        }
        None
    }

    /// Checks a source file against the content seen so far. A source whose
    /// content (`hash`) was already seen is skipped as a duplicate: the path
    /// it duplicates is returned and the skip counted. Otherwise its content
    /// waits to be recorded under its own path once it is moved; a source
    /// whose hash could not be computed goes ahead and is never recorded.
    pub fn check_source(&mut self, src_path: &str, hash: Option<String>) -> (r: Option<String>)
        requires
            old(self).result.skipped < usize::MAX,
        ensures
            check_effect(*old(self), *final(self), src_path@, opt_text(hash), opt_text(r)),
    {
        match hash {
            Some(h) => match self.find_seen(&h) {
                Some(e) => {
                    self.result.skipped = self.result.skipped + 1;
                    self.pending = None;
                    Some(e)
                },
                None => {
                    self.pending = Some((h, src_path.to_owned()));
                    None
                },
            },
            None => {
                self.pending = None;
                None
            },
        }
    }

    /// The first step of moving a file whose destination is settled: in a
    /// dry run the file counts as moved at once (and its content is
    /// recorded), otherwise its folder is created first.
    pub fn start_transfer(&mut self) -> (s: Step)
        requires
            old(self).result.moved < usize::MAX,
        ensures
            s == (if old(self).opts.dry_run {
                Step::Moved
            } else {
                Step::Do(FsOp::CreateDir)
            }),
            final(self).result == count_step(old(self).result, s),
            final(self).opts == old(self).opts,
            final(self).seen() == (if s is Moved {
                record(old(self).seen(), old(self).pending())
            } else {
                old(self).seen()
            }),
            final(self).pending() == (if s is Moved {
                None
            } else {
                old(self).pending()
            }),
    {
        if self.opts.dry_run {
            self.result.moved = self.result.moved + 1;
            self.record_pending();
            Step::Moved
        } else {
            Step::Do(FsOp::CreateDir)
        }
    }

    /// The step after operation `op` succeeded (`ok`) or failed; a step
    /// that ends the file is counted, and the file's content is recorded
    /// only when it was moved.
    pub fn transfer_step(&mut self, op: FsOp, ok: bool) -> (s: Step)
        requires
            counts_below_max(old(self).result),
        ensures
            s == next_step(old(self).opts.copy, op, ok),
            final(self).result == count_step(old(self).result, s),
            final(self).opts == old(self).opts,
            final(self).seen() == (if s is Moved {
                record(old(self).seen(), old(self).pending())
            } else {
                old(self).seen()
            }),
            final(self).pending() == (if s is Do {
                old(self).pending()
            } else {
                None
            }),
    {
        let copy = self.opts.copy;
        let s = match op {
            FsOp::CreateDir => if !ok {
                Step::Failed
            } else if copy {
                Step::Do(FsOp::Copy)
            } else {
                Step::Do(FsOp::Rename)
            },
            FsOp::Copy => if !ok {
                Step::Failed
            } else if copy {
                Step::Moved
            } else {
                Step::Do(FsOp::RemoveSource)
            },
            FsOp::Rename => if ok {
                Step::Moved
            } else {
                Step::Do(FsOp::Copy)
            },
            FsOp::RemoveSource => if ok {
                Step::Moved
            } else {
                Step::Failed
            },
        };
        match s {
            Step::Moved => {
                self.result.moved = self.result.moved + 1;
                self.record_pending();
            },
            Step::Failed => {
                self.result.errors = self.result.errors + 1;
                self.pending = None;
            },
            Step::Do(_) => {},
        }
        s
    }
}

/// Where a source goes, or why it goes nowhere.
#[derive(Debug, Clone, PartialEq)]
pub enum Plan {
    /// Its content is already at this path.
    Skip(String),
    /// Into folder `subdir`, at the free path `dest`.
    Move { subdir: String, dest: String },
    /// Every name tried in its folder is taken.
    NoFreeName,
}

/// The skip that a plan reports.
pub open spec fn plan_skip(p: Plan) -> Option<Seq<char>> {
    match p {
        Plan::Skip(e) => Some(e@),
        _ => None,
    }
}

impl Organizer {
    /// Plans one source file: checks it against the content seen (see
    /// [`Organizer::check_source`]); a file that is not skipped gets its
    /// folder from its date and the first free name there (see
    /// [`unique_dest`]).
    pub fn plan_file<F: Fn(&str) -> bool>(
        &mut self,
        src_path: &str,
        hash: Option<String>,
        date: Option<MediaDate>,
        is_taken: F,
    ) -> (r: Plan)
        requires
            old(self).result.skipped < usize::MAX,
            forall|s: &str| is_taken.requires((s,)),
        ensures
            check_effect(*old(self), *final(self), src_path@, opt_text(hash), plan_skip(r)),
            r matches Plan::Move { subdir, dest } ==> subdir@ == dest_subdir_spec(
                old(self).opts.dest@,
                date_view(date),
            ) && first_free(
                is_taken,
                subdir@,
                dest_stem_spec(src_path@, date_view(date)),
                dest_ext_spec(src_path@),
                dest@,
            ),
            r is NoFreeName ==> none_free(
                is_taken,
                dest_subdir_spec(old(self).opts.dest@, date_view(date)),
                dest_stem_spec(src_path@, date_view(date)),
                dest_ext_spec(src_path@),
            ),
    {
        if let Some(e) = self.check_source(src_path, hash) {
            return Plan::Skip(e);
        }
        let d = plan_destination(self.opts.dest.as_str(), src_path, date);
        match unique_dest(d.subdir.as_str(), d.stem.as_str(), d.ext.as_str(), is_taken) {
            Some(dest) => Plan::Move { subdir: d.subdir, dest },
            None => Plan::NoFreeName,
        }
    }
}

/// A source file as the caller found it: its path, the hash of its content
/// (if it could be read) and its date (if it has one).
pub struct SourceFile {
    pub path: String,
    pub hash: Option<String>,
    pub date: Option<MediaDate>,
}

/// The `(hash, path)` pairs of a list.
pub open spec fn pairs_view(v: Seq<(String, String)>) -> Seq<(Seq<char>, Seq<char>)> {
    v.map_values(|e: (String, String)| (e.0@, e.1@))
}

/// The content recorded once a dry run has gone through `files`, starting
/// from `seen0`: each source that is not skipped records its hash.
pub open spec fn dry_seen(seen0: Seq<(Seq<char>, Seq<char>)>, files: Seq<SourceFile>) -> Seq<
    (Seq<char>, Seq<char>),
>
    decreases files.len(),
{
    if files.len() == 0 {
        seen0
    } else {
        let prev = dry_seen(seen0, files.drop_last());
        let f = files.last();
        match f.hash {
            Some(h) => if lookup_seen(prev, h@) is Some {
                prev
            } else {
                prev.push((h@, f.path@))
            },
            None => prev,
        }
    }
}

/// File `i` is skipped in a dry run: its content was seen before it.
pub open spec fn dry_skipped(seen0: Seq<(Seq<char>, Seq<char>)>, files: Seq<SourceFile>, i: int) -> bool {
    files[i].hash matches Some(h) && lookup_seen(dry_seen(seen0, files.take(i)), h@) is Some
}

/// The positions of the files a dry run moves, in order.
pub open spec fn dry_kept(seen0: Seq<(Seq<char>, Seq<char>)>, files: Seq<SourceFile>) -> Seq<int>
    decreases files.len(),
{
    if files.len() == 0 {
        seq![]
    } else {
        let prev = dry_kept(seen0, files.drop_last());
        if dry_skipped(seen0, files, files.len() - 1) {
            prev
        } else {
            prev.push(files.len() - 1)
        }
    }
}

/// Move `m` is where a dry run into `dest` puts file `f`: from its path to
/// the first free name in its dated folder.
pub open spec fn planned_for<F: Fn(&str) -> bool>(
    is_taken: F,
    dest: Seq<char>,
    f: SourceFile,
    m: PlannedMove,
) -> bool {
    m.src@ == f.path@ && first_free(
        is_taken,
        dest_subdir_spec(dest, date_view(f.date)),
        dest_stem_spec(f.path@, date_view(f.date)),
        dest_ext_spec(f.path@),
        m.dest@,
    )
}

/// A copy of a string.
fn copy_text(s: &String) -> (r: String)
    ensures
        r@ == s@,
{
    s.clone()
}

/// A copy of an optional date.
fn copy_date(d: &Option<MediaDate>) -> (r: Option<MediaDate>)
    ensures
        date_view(r) == date_view(*d),
{
    match d {
        Some(x) => Some(
            MediaDate {
                year: copy_text(&x.year),
                month: copy_text(&x.month),
                day: copy_text(&x.day),
                time: copy_text(&x.time),
            },
        ),
        None => None,
    }
}

/// A copy of an optional hash.
fn copy_hash(h: &Option<String>) -> (r: Option<String>)
    ensures
        opt_text(r) == opt_text(*h),
{
    match h {
        Some(x) => Some(copy_text(x)),
        None => None,
    }
}

/// One more file in a dry run.
proof fn lemma_dry_step(seen0: Seq<(Seq<char>, Seq<char>)>, files: Seq<SourceFile>, i: int)
    requires
        0 <= i < files.len(),
    ensures
        dry_seen(seen0, files.take(i + 1)) == (match files[i].hash {
            Some(h) => if lookup_seen(dry_seen(seen0, files.take(i)), h@) is Some {
                dry_seen(seen0, files.take(i))
            } else {
                dry_seen(seen0, files.take(i)).push((h@, files[i].path@))
            },
            None => dry_seen(seen0, files.take(i)),
        }),
        dry_kept(seen0, files.take(i + 1)) == (if dry_skipped(seen0, files, i) {
            dry_kept(seen0, files.take(i))
        } else {
            dry_kept(seen0, files.take(i)).push(i)
        }),
        dry_skipped(seen0, files.take(i + 1), i) == dry_skipped(seen0, files, i),
{
    let t = files.take(i + 1);
    assert(t.drop_last() =~= files.take(i));
    assert(t.take(i) =~= files.take(i));
}

/// The organize preview: the moves that a dry run of an organize into
/// `opts.dest` reports for `files`, in order, when `existing` holds the
/// `(hash, path)` of the files already in the destination. A file whose
/// content is already there, or was planned earlier in the run, is
/// skipped; every other file goes to the first free name in its dated
/// folder. There is no preview when some file finds no free name.
pub fn plan_preview<F: Fn(&str) -> bool + Copy>(
    opts: OrganizeOptions,
    existing: Vec<(String, String)>,
    files: &Vec<SourceFile>,
    is_taken: F,
) -> (r: Option<Vec<PlannedMove>>)
    requires
        forall|s: &str| is_taken.requires((s,)),
    ensures
        r matches Some(moves) ==> moves@.len() == dry_kept(pairs_view(existing@), files@).len()
            && forall|k: int|
            0 <= k < moves@.len() ==> planned_for(
                is_taken,
                opts.dest@,
                files@[#[trigger] dry_kept(pairs_view(existing@), files@)[k]],
                moves@[k],
            ),
        r is None ==> exists|i: int|
            0 <= i < files@.len() && !dry_skipped(pairs_view(existing@), files@, i) && none_free(
                is_taken,
                dest_subdir_spec(opts.dest@, date_view(#[trigger] files@[i].date)),
                dest_stem_spec(files@[i].path@, date_view(files@[i].date)),
                dest_ext_spec(files@[i].path@),
            ),
{
    let ghost seen0 = pairs_view(existing@);
    let ghost dest = opts.dest@;
    let mut o = opts;
    o.dry_run = true;
    let mut org = Organizer::new(o);
    let mut j: usize = 0;
    while j < existing.len()
        invariant
            j <= existing@.len(),
            seen0 == pairs_view(existing@),
            dest == opts.dest@,
            org.seen() == seen0.take(j as int),
            org.pending() is None,
            org.opts.dry_run,
            org.opts.dest@ == dest,
            org.result == (OrganizeResult { moved: 0, skipped: 0, errors: 0 }),
        decreases existing@.len() - j,
    {
        let e = &existing[j];
        org.remember_existing(copy_text(&e.0), copy_text(&e.1));
        assert(seen0.take(j + 1) =~= seen0.take(j as int).push(seen0[j as int]));
        j += 1;
    }
    assert(seen0.take(j as int) =~= seen0);
    assert(files@.take(0) =~= Seq::<SourceFile>::empty());
    let mut moves: Vec<PlannedMove> = Vec::new();
    let mut i: usize = 0;
    while i < files.len()
        invariant
            i <= files@.len(),
            forall|s: &str| is_taken.requires((s,)),
            seen0 == pairs_view(existing@),
            dest == opts.dest@,
            org.seen() == dry_seen(seen0, files@.take(i as int)),
            org.pending() is None,
            org.opts.dry_run,
            org.opts.dest@ == dest,
            org.result.moved + org.result.skipped <= i,
            org.result.errors == 0,
            moves@.len() == dry_kept(seen0, files@.take(i as int)).len(),
            forall|k: int|
                0 <= k < moves@.len() ==> 0 <= dry_kept(seen0, files@.take(i as int))[k] < i
                    && planned_for(
                    is_taken,
                    dest,
                    files@[#[trigger] dry_kept(seen0, files@.take(i as int))[k]],
                    moves@[k],
                ),
        decreases files@.len() - i,
    {
        let f = &files[i];
        proof {
            lemma_dry_step(seen0, files@, i as int);
        }
        let ghost before = org;
        let plan = org.plan_file(f.path.as_str(), copy_hash(&f.hash), copy_date(&f.date), is_taken);
        match plan {
            Plan::Skip(_) => {},
            Plan::Move { subdir: _, dest: to } => {
                let _ = org.start_transfer();
                moves.push(PlannedMove { src: copy_text(&f.path), dest: to });
            },
            Plan::NoFreeName => {
                proof {
                    if f.hash is Some {
                        let h = f.hash->0;
                        assert(opt_text(f.hash) == Some(h@));
                        assert(lookup_seen(before.seen(), h@) is None);
                    }
                    assert(!dry_skipped(seen0, files@, i as int));
                    assert(files@[i as int].date == f.date);
                }
                return None;
            },
        }
        proof {
            let kept_before = dry_kept(seen0, files@.take(i as int));
            let kept_after = dry_kept(seen0, files@.take(i + 1));
            assert forall|k: int|
                0 <= k < moves@.len() implies 0 <= kept_after[k] < i + 1 && planned_for(
                is_taken,
                dest,
                files@[#[trigger] kept_after[k]],
                moves@[k],
            ) by {
                if k < kept_before.len() {
                    assert(kept_after[k] == kept_before[k]);
                }
            }
        }
        i += 1;
    }
    assert(files@.take(i as int) =~= files@);
    Some(moves)
}

/// Content recorded last is found again: a source whose content is already
/// in the destination, or was already moved in this run, is skipped as a
/// duplicate of the path recorded for it.
pub proof fn law_recorded_content_is_skipped(
    seen: Seq<(Seq<char>, Seq<char>)>,
    hash: Seq<char>,
    path: Seq<char>,
)
    ensures
        lookup_seen(seen.push((hash, path)), hash) == Some(path),
{
    assert(seen.push((hash, path)).drop_last() =~= seen);
}

/// Content recorded at any point is found again, however much was recorded
/// after it: a source with the content of a file already in the destination
/// (or of a source already moved) is skipped, so running again moves nothing
/// twice.
pub proof fn law_seen_content_is_skipped(seen: Seq<(Seq<char>, Seq<char>)>, hash: Seq<char>, i: int)
    requires
        0 <= i < seen.len(),
        seen[i].0 == hash,
    ensures
        lookup_seen(seen, hash) is Some,
    decreases seen.len(),
{
    if seen.last().0 != hash {
        assert(i < seen.len() - 1);
        assert(seen.drop_last()[i] == seen[i]);
        law_seen_content_is_skipped(seen.drop_last(), hash, i);
    }
}

/// A dry run only adds to what was recorded before it.
proof fn lemma_dry_seen_extends(seen0: Seq<(Seq<char>, Seq<char>)>, files: Seq<SourceFile>)
    ensures
        dry_seen(seen0, files).len() >= seen0.len(),
        forall|j: int| 0 <= j < seen0.len() ==> #[trigger] dry_seen(seen0, files)[j] == seen0[j],
    decreases files.len(),
{
    if files.len() > 0 {
        lemma_dry_seen_extends(seen0, files.drop_last());
    }
}

/// The content of `f` is known and recorded in `seen`.
pub open spec fn content_recorded(seen: Seq<(Seq<char>, Seq<char>)>, f: SourceFile) -> bool {
    f.hash matches Some(h) && exists|j: int| 0 <= j < seen.len() && seen[j].0 == h@
}

/// A run over sources whose content is all in the destination already
/// moves nothing and skips every file: so organizing again, after a run
/// that moved or copied every file, changes nothing.
pub proof fn law_rerun_moves_nothing(seen0: Seq<(Seq<char>, Seq<char>)>, files: Seq<SourceFile>)
    requires
        forall|i: int| 0 <= i < files.len() ==> content_recorded(seen0, #[trigger] files[i]),
    ensures
        dry_kept(seen0, files).len() == 0,
        forall|i: int| 0 <= i < files.len() ==> dry_skipped(seen0, files, i),
    decreases files.len(),
{
    assert forall|i: int| 0 <= i < files.len() implies dry_skipped(seen0, files, i) by {
        let h = files[i].hash->0;
        let j = choose|j: int| 0 <= j < seen0.len() && seen0[j].0 == h@;
        lemma_dry_seen_extends(seen0, files.take(i));
        law_seen_content_is_skipped(dry_seen(seen0, files.take(i)), h@, j);
    }
    if files.len() > 0 {
        let rest = files.drop_last();
        assert forall|i: int| 0 <= i < rest.len() implies content_recorded(seen0, #[trigger] rest[i]) by {
            assert(rest[i] == files[i]);
        }
        law_rerun_moves_nothing(seen0, rest);
    }
}

/// A file without a date keeps its name: the new stem, a `.` and the
/// file's extension (which holds no `.`) give back its file name; without
/// an extension the new stem is the whole file name; a path without a file
/// name gets the stem `unknown`.
pub proof fn law_undated_file_keeps_its_name(p: Seq<char>, n: Seq<char>, e: Seq<char>)
    ensures
        file_name_spec(p) == Some(n) && extension_spec(p) == Some(e) ==> dest_stem_spec(p, None)
            + seq!['.'] + e == n && no_dot(e),
        file_name_spec(p) == Some(n) && extension_spec(p) is None ==> dest_stem_spec(p, None)
            == n,
        file_name_spec(p) is None ==> dest_stem_spec(p, None) == "unknown"@,
{
    law_stem_and_extension(n);
}

/// The stem used for the date of `folder/name`, for a name without `/`
/// that does not start with `.`: the name without its last extension,
/// when that leaves a name.
proof fn lemma_name_stem_of(d: Seq<char>, s: Seq<char>, e: Seq<char>)
    requires
        s.len() > 0,
        s[0] != '.',
        no_slash(s),
        no_slash(e),
        no_dot(e),
    ensures
        file_stem_spec(d + seq!['/'] + (s + seq!['.'] + e)) == Some(s),
        file_stem_spec(s + seq!['.'] + e) == Some(s),
{
    let n = s + seq!['.'] + e;
    assert(n[0] == s[0]);
    assert(no_slash(n)) by {
        assert forall|k: int| 0 <= k < n.len() implies n[k] != '/' by {
            if k < s.len() {
                assert(n[k] == s[k]);
            } else if k > s.len() {
                assert(n[k] == e[k - s.len() - 1]);
            }
        }
    }
    assert(n != seq!['.']);
    assert(n != seq!['.', '.']);
    law_file_name_is_last_component(d, n);
    lemma_last_dot_before(s, e);
    assert(n.take(s.len() as int) =~= s);
}

/// The stem of a name without `/` or `.` is the name itself.
proof fn lemma_plain_stem(d: Seq<char>, s: Seq<char>)
    requires
        s.len() > 0,
        no_slash(s),
        no_dot(s),
    ensures
        file_stem_spec(d + seq!['/'] + s) == Some(s),
        file_stem_spec(s) == Some(s),
{
    assert(s != seq!['.']) by {
        assert(s[0] != '.');
    }
    assert(s != seq!['.', '.']) by {
        assert(s[0] != '.');
    }
    law_file_name_is_last_component(d, s);
    lemma_last_dot_none(s);
}

/// Without an EXIF date, a file's date is read from its file name alone,
/// with up to two extensions dropped: the folders it sits in do not count.
pub proof fn law_fallback_date_reads_file_name(
    d: Seq<char>,
    s: Seq<char>,
    x: Seq<char>,
    e: Seq<char>,
)
    requires
        s.len() > 0,
        no_slash(s) && no_dot(s),
        no_slash(x) && no_dot(x),
        no_slash(e) && no_dot(e),
    ensures
        resolve_date_spec(d + seq!['/'] + s, None) == from_filename_spec(s),
        resolve_date_spec(d + seq!['/'] + (s + seq!['.'] + e), None) == from_filename_spec(s),
        resolve_date_spec(d + seq!['/'] + (s + seq!['.'] + x + seq!['.'] + e), None)
            == from_filename_spec(s),
{
    assert(s[0] != '.');
    lemma_plain_stem(d, s);
    lemma_name_stem_of(d, s, e);
    let sx = s + seq!['.'] + x;
    assert(sx[0] == s[0]);
    assert(no_slash(sx)) by {
        assert forall|k: int| 0 <= k < sx.len() implies sx[k] != '/' by {
            if k < s.len() {
                assert(sx[k] == s[k]);
            } else if k > s.len() {
                assert(sx[k] == x[k - s.len() - 1]);
            }
        }
    }
    lemma_name_stem_of(d, sx, e);
    lemma_name_stem_of(seq![], s, x);
}

/// Recording one content leaves what is found for any other content as it
/// was.
pub proof fn law_recording_keeps_other_content(
    seen: Seq<(Seq<char>, Seq<char>)>,
    hash: Seq<char>,
    path: Seq<char>,
    other: Seq<char>,
)
    requires
        other != hash,
    ensures
        lookup_seen(seen.push((hash, path)), other) == lookup_seen(seen, other),
{
    assert(seen.push((hash, path)).drop_last() =~= seen);
}

/// How many more steps a move can take after `op`.
pub open spec fn steps_left(op: FsOp) -> nat {
    match op {
        FsOp::CreateDir => 4,
        FsOp::Rename => 3,
        FsOp::Copy => 2,
        FsOp::RemoveSource => 1,
    }
}

/// Every step asks for an operation closer to the end, so moving one file
/// takes at most four operations.
pub proof fn law_transfer_progresses(copy: bool, op: FsOp, ok: bool)
    ensures
        next_step(copy, op, ok) matches Step::Do(op2) ==> steps_left(op2) < steps_left(op),
{
}

/// In copy mode the source is never renamed or removed.
pub proof fn law_copy_keeps_source(op: FsOp, ok: bool)
    requires
        op == FsOp::CreateDir || op == FsOp::Copy,
    ensures
        next_step(true, op, ok) != Step::Do(FsOp::Rename),
        next_step(true, op, ok) != Step::Do(FsOp::RemoveSource),
{
}

/// Each file is counted exactly once: a step that ends it adds one to
/// exactly one of the counts, any other step adds nothing.
pub proof fn law_counted_once(r: OrganizeResult, s: Step)
    requires
        counts_below_max(r),
    ensures
        count_step(r, s).moved + count_step(r, s).skipped + count_step(r, s).errors == r.moved
            + r.skipped + r.errors + (if s is Do {
            0int
        } else {
            1int
        }),
{
}


/// The text starts at the root.
pub open spec fn starts_at_root(s: Seq<char>) -> bool {
    s.len() > 0 && s[0] == '/'
}

/// Every candidate name starts at the root exactly when the stem does.
proof fn lemma_candidate_root(stem: Seq<char>, ext: Seq<char>, n: nat)
    ensures
        starts_at_root(candidate_name(stem, ext, n)) == starts_at_root(stem),
{
    let name = candidate_name(stem, ext, n);
    if stem.len() > 0 {
        assert(name[0] == stem[0]);
    } else if n > 1 {
        assert(name[0] == '_');
    } else if ext.len() > 0 {
        assert(name[0] == '.');
    }
}

/// Joining onto one folder keeps different names apart when both or
/// neither start at the root.
proof fn lemma_join_injective(dir: Seq<char>, a: Seq<char>, b: Seq<char>)
    requires
        starts_at_root(a) == starts_at_root(b),
        a != b,
    ensures
        join_spec(dir, a) != join_spec(dir, b),
{
    if !starts_at_root(a) {
        let pre = if dir.len() > 0 && dir.last() != '/' {
            dir + seq!['/']
        } else {
            dir
        };
        assert(join_spec(dir, a) =~= pre + a);
        assert(join_spec(dir, b) =~= pre + b);
        if pre + a == pre + b {
            assert(a =~= (pre + a).subrange(pre.len() as int, (pre + a).len() as int));
            assert(b =~= (pre + b).subrange(pre.len() as int, (pre + b).len() as int));
        }
    }
}

/// Two decimal texts followed by the same `.ext` differ when the numbers do.
proof fn lemma_decimal_suffix_distinct(j: nat, k: nat, tail: Seq<char>)
    requires
        j != k,
        tail.len() > 0,
        tail[0] == '.',
    ensures
        decimal(j) + tail != decimal(k) + tail,
{
    let a = decimal(j) + tail;
    let b = decimal(k) + tail;
    lemma_decimal_digits(j);
    lemma_decimal_digits(k);
    if a == b {
        let lj = decimal(j).len();
        let lk = decimal(k).len();
        if lj < lk {
            assert(a[lj as int] == '.');
            assert(b[lj as int] == decimal(k)[lj as int]);
        } else if lk < lj {
            assert(b[lk as int] == '.');
            assert(a[lk as int] == decimal(j)[lk as int]);
        } else {
            assert(decimal(j) =~= a.subrange(0, lj as int));
            assert(decimal(k) =~= b.subrange(0, lk as int));
            lemma_decimal_injective(j, k);
        }
    }
}

/// Different attempts give different file names.
proof fn lemma_candidate_names_distinct(stem: Seq<char>, ext: Seq<char>, j: nat, k: nat)
    requires
        1 <= j,
        1 <= k,
        j != k,
    ensures
        candidate_name(stem, ext, j) != candidate_name(stem, ext, k),
{
    let a = candidate_name(stem, ext, j);
    let b = candidate_name(stem, ext, k);
    let suffix = if ext.len() == 0 {
        Seq::<char>::empty()
    } else {
        seq!['.'] + ext
    };
    if j > 1 && k > 1 {
        let pre = stem + seq!['_'];
        assert(a =~= pre + (decimal(j) + suffix));
        assert(b =~= pre + (decimal(k) + suffix));
        if ext.len() == 0 {
            assert(decimal(j) + suffix =~= decimal(j));
            assert(decimal(k) + suffix =~= decimal(k));
            if decimal(j) == decimal(k) {
                lemma_decimal_injective(j, k);
            }
        } else {
            lemma_decimal_suffix_distinct(j, k, suffix);
        }
        if a == b {
            assert(decimal(j) + suffix =~= a.subrange(pre.len() as int, a.len() as int));
            assert(decimal(k) + suffix =~= b.subrange(pre.len() as int, b.len() as int));
        }
    } else {
        let m = if j > 1 {
            j
        } else {
            k
        };
        lemma_decimal_value_len(m);
        let plain = candidate_name(stem, ext, 1);
        let numbered = candidate_name(stem, ext, m);
        if ext.len() == 0 {
            assert(plain.len() < numbered.len());
        } else {
            assert(plain[stem.len() as int] == '.');
            assert(numbered[stem.len() as int] == '_');
        }
    }
}

/// A decimal text is never empty.
proof fn lemma_decimal_value_len(n: nat)
    ensures
        decimal(n).len() >= 1,
{
    crate::number::lemma_decimal_value(n);
}

/// Different attempts try different paths, so a search for a free path never
/// asks twice about the same path and never returns a path reported taken.
pub proof fn law_candidates_distinct(dir: Seq<char>, stem: Seq<char>, ext: Seq<char>, j: nat, k: nat)
    requires
        1 <= j,
        1 <= k,
        j != k,
    ensures
        candidate_path(dir, stem, ext, j) != candidate_path(dir, stem, ext, k),
{
    lemma_candidate_names_distinct(stem, ext, j, k);
    lemma_candidate_root(stem, ext, j);
    lemma_candidate_root(stem, ext, k);
    lemma_join_injective(dir, candidate_name(stem, ext, j), candidate_name(stem, ext, k));
}

} // verus!
