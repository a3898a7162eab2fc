//! Projects: configuration, library directories, and a sheet's place in its hierarchy.

use vstd::prelude::*;
use vstd::string::StringExecFns;
use crate::text::{join2, join3, last_byte_below, occurs, occurs_at, opt_text, same, texts, utf8};

verus! {

// ── Configuration ────────────────────────────────────────────────────────────

/// The part of the server configuration that tools read.
#[derive(Debug, Clone)]
pub struct ServerConfig {
    pub kicad_cli: String,
    pub kicad_binary: String,
    pub ipc_address: String,
    pub project_dir: Option<String>,
    pub jlcpcb_db_path: Option<String>,
    /// Load a tool's toolset on call instead of refusing the call.
    pub auto_load_toolsets: bool,
    /// Load every toolset at startup, so that the first listing is complete.
    pub eager_toolsets: bool,
}

impl Default for ServerConfig {
    /// Nothing configured, both loading modes off.
    fn default() -> (r: ServerConfig)
        ensures
            r.kicad_cli@ == Seq::<char>::empty(),
            r.kicad_binary@ == Seq::<char>::empty(),
            r.ipc_address@ == Seq::<char>::empty(),
            r.project_dir is None,
            r.jlcpcb_db_path is None,
            !r.auto_load_toolsets,
            !r.eager_toolsets,
    {
        ServerConfig {
            kicad_cli: String::new(),
            kicad_binary: String::new(),
            ipc_address: String::new(),
            project_dir: None,
            jlcpcb_db_path: None,
            auto_load_toolsets: false,
            eager_toolsets: false,
        }
    }
}

/// Where the KiCad user configuration is kept: in the newest version directory
/// that is present; failing that in the bare directory above them, which is
/// `None`; and when not even that is present in `10.0`, created on first use.
pub fn kicad_config_dir(has_10: bool, has_9: bool, has_8: bool, has_bare: bool) -> (r: Option<
    &'static str,
>)
    ensures
        match r {
            Some(version) => version@ == if has_10 {
                "10.0"@
            } else if has_9 {
                "9.0"@
            } else if has_8 {
                "8.0"@
            } else {
                "10.0"@
            },
            None => true,
        },
        r is None <==> !has_10 && !has_9 && !has_8 && has_bare,
{
    if has_10 {
        Some("10.0")
    } else if has_9 {
        Some("9.0")
    } else if has_8 {
        Some("8.0")
    } else if has_bare {
        None
    } else {
        Some("10.0")
    }
}

/// The environment-variable suffix that names a kind of library.
pub open spec fn env_suffix(kind: Seq<char>) -> Option<Seq<char>> {
    if kind == "symbols"@ {
        Some("SYMBOL_DIR"@)
    } else if kind == "footprints"@ {
        Some("FOOTPRINT_DIR"@)
    } else if kind == "3dmodels"@ {
        Some("3DMODEL_DIR"@)
    } else {
        None
    }
}

/// The environment-variable suffix that names a kind of library.
pub fn kicad_env_suffix(kind: &str) -> (r: Option<&'static str>)
    ensures
        match r {
            Some(s) => env_suffix(kind@) == Some(s@),
            None => env_suffix(kind@) is None,
        },
{
    if same(kind, "symbols") {
        Some("SYMBOL_DIR")
    } else if same(kind, "footprints") {
        Some("FOOTPRINT_DIR")
    } else if same(kind, "3dmodels") {
        Some("3DMODEL_DIR")
    } else {
        None
    }
}

/// The environment variables that may name a directory of such libraries, newest KiCad first.
pub fn library_dir_variables(kind: &str) -> (r: Vec<String>)
    ensures
        texts(r@) == match env_suffix(kind@) {
            Some(s) => seq!["KICAD10_"@ + s, "KICAD9_"@ + s, "KICAD8_"@ + s],
            None => Seq::empty(),
        },
{
    let mut names: Vec<String> = Vec::new();
    if let Some(suffix) = kicad_env_suffix(kind) {
        names.push(join2("KICAD10_", suffix));
        names.push(join2("KICAD9_", suffix));
        names.push(join2("KICAD8_", suffix));
    }
    assert(texts(names@) =~= match env_suffix(kind@) {
        Some(s) => seq!["KICAD10_"@ + s, "KICAD9_"@ + s, "KICAD8_"@ + s],
        None => Seq::empty(),
    });
    names
}

/// A directory that may hold libraries. Candidates that name the same
/// directory have the same key.
#[derive(Clone, Copy)]
pub struct DirCandidate {
    pub key: usize,
    pub is_dir: bool,
}

/// Some index of `kept` is that of a candidate with this key.
pub open spec fn key_kept(all: Seq<DirCandidate>, kept: Seq<int>, key: usize) -> bool {
    exists|j: int| 0 <= j < kept.len() && all[#[trigger] kept[j]].key == key
}

/// The first `n` candidates that are directories, each directory once.
pub open spec fn library_dirs(all: Seq<DirCandidate>, n: int) -> Seq<int>
    decreases n,
{
    if n <= 0 {
        Seq::empty()
    } else {
        let before = library_dirs(all, n - 1);
        if all[n - 1].is_dir && !key_kept(all, before, all[n - 1].key) {
            before.push(n - 1)
        } else {
            before
        }
    }
}

/// The candidates to search, by index: those that are directories, each
/// directory where it comes first.
pub fn find_kicad_library_dirs(all: &Vec<DirCandidate>) -> (r: Vec<usize>)
    ensures
        r@.map_values(|i: usize| i as int) == library_dirs(all@, all@.len() as int),
{
    let mut dirs: Vec<usize> = Vec::new();
    let mut i: usize = 0;
    assert(dirs@.map_values(|i: usize| i as int) =~= library_dirs(all@, 0));
    while i < all.len()
        invariant
            i <= all@.len(),
            forall|j: int| 0 <= j < dirs@.len() ==> #[trigger] dirs@[j] < all@.len(),
            dirs@.map_values(|i: usize| i as int) == library_dirs(all@, i as int),
        decreases all@.len() - i,
    {
        let ghost before = dirs@.map_values(|i: usize| i as int);
        let mut known = false;
        let mut j: usize = 0;
        while j < dirs.len()
            invariant
                j <= dirs@.len(),
                i < all@.len(),
                forall|j: int| 0 <= j < dirs@.len() ==> #[trigger] dirs@[j] < all@.len(),
                known == exists|k: int|
                    0 <= k < j && all@[(#[trigger] dirs@[k]) as int].key == all@[i as int].key,
            decreases dirs@.len() - j,
        {
            if all[dirs[j]].key == all[i].key {
                known = true;
            }
            j += 1;
        }
        proof {
            if known {
                let k = choose|k: int|
                    0 <= k < j && all@[(#[trigger] dirs@[k]) as int].key == all@[i as int].key;
                assert(all@[before[k]].key == all@[i as int].key);
            } else if key_kept(all@, before, all@[i as int].key) {
                let k = choose|k: int|
                    0 <= k < before.len() && all@[#[trigger] before[k]].key == all@[i as int].key;
                assert(all@[dirs@[k] as int].key == all@[i as int].key);
            }
        }
        if all[i].is_dir && !known {
            dirs.push(i);
            assert(dirs@.map_values(|i: usize| i as int) =~= before.push(i as int));
        }
        i += 1;
    }
    dirs
}

// ── Missing arguments ────────────────────────────────────────────────────────

/// A required argument was absent or of the wrong type.
#[derive(Debug)]
pub struct MissingArgument {
    pub field: String,
}

/// One link in the chain of causes of an error.
#[derive(Debug)]
pub enum Cause {
    /// A required argument was missing.
    Missing(MissingArgument),
    /// Anything else, by its message.
    Other(String),
}

/// The field that the first missing argument names, from link `i` on.
pub open spec fn missing_field(chain: Seq<Cause>, i: int) -> Option<Seq<char>>
    decreases chain.len() - i,
{
    if i >= chain.len() {
        None
    } else {
        match chain[i] {
            Cause::Missing(m) => Some(m.field@),
            Cause::Other(_) => missing_field(chain, i + 1),
        }
    }
}

impl MissingArgument {
    /// What to tell the caller.
    pub fn message(&self) -> (r: String)
        ensures
            r@ == "Missing required argument: '"@ + self.field@ + "'"@,
    {
        join3("Missing required argument: '", self.field.as_str(), "'")
    }

    /// The field named by the first missing argument in a chain of causes.
    pub fn field_in(chain: &Vec<Cause>) -> (r: Option<&str>)
        ensures
            match r {
                Some(f) => missing_field(chain@, 0) == Some(f@),
                None => missing_field(chain@, 0) is None,
            },
    {
        let mut i: usize = 0;
        while i < chain.len()
            invariant
                i <= chain@.len(),
                missing_field(chain@, 0) == missing_field(chain@, i as int),
            decreases chain@.len() - i,
        {
            if let Cause::Missing(m) = &chain[i] {
                return Some(m.field.as_str());
            }
            i += 1;
        }
        None
    }
}

// ── Project names ────────────────────────────────────────────────────────────

/// The part of a file name before its last dot; the whole name when it has no
/// dot, or none but a leading one.
pub open spec fn stem(name: Seq<u8>) -> Seq<u8> {
    match last_byte_below(name, 0x2e, name.len() as int) {
        Some(i) => if i > 0 {
            name.subrange(0, i)
        } else {
            name
        },
        None => name,
    }
}

/// What follows the last slash of a path.
pub open spec fn last_component(path: Seq<u8>) -> Seq<u8> {
    match last_byte_below(path, 0x2f, path.len() as int) {
        Some(i) => path.subrange(i + 1, path.len() as int),
        None => path,
    }
}

/// A path without the slashes it ends in, and without the components `.` there.
pub open spec fn trimmed(path: Seq<u8>) -> Seq<u8>
    decreases path.len(),
{
    let n = path.len() as int;
    if n > 0 && path[n - 1] == 0x2f {
        trimmed(path.drop_last())
    } else if n > 1 && path[n - 1] == 0x2e && path[n - 2] == 0x2f {
        trimmed(path.drop_last())
    } else {
        path
    }
}

/// The file or directory that a path names; a path that ends in `..` names none.
pub open spec fn file_name(path: Seq<u8>) -> Option<Seq<u8>> {
    let name = last_component(trimmed(path));
    if name.len() == 0 || name == utf8("."@) || name == utf8(".."@) {
        None
    } else {
        Some(name)
    }
}

/// A path that every platform takes apart alike.
pub open spec fn portable(path: Seq<u8>) -> bool {
    &&& !occurs(path, utf8("\\"@))
    &&& !occurs(path, utf8(":"@))
    &&& !occurs_at(path, utf8("//"@), 0)
}

/// `std::path::Path::file_stem`, on a path given as text.
///
/// Its documentation: the stem is the portion of the file name before the
/// final dot, or the whole file name when there is no dot or only a leading
/// one, and there is none without a file name. The file name is the final
/// component, where slashes at the end and components `.` there do not count,
/// and `..` is no file name. Which other characters separate components, and
/// what two slashes in front mean, depends on the platform, so nothing is
/// stated of a path that holds a backslash or a colon or begins so.
#[verifier::external_body]
fn path_file_stem(path: &str) -> (r: Option<String>)
    ensures
        match r {
            Some(s) => portable(utf8(path@)) ==> (file_name(utf8(path@)) matches Some(name)
                && utf8(s@) == stem(name)),
            None => portable(utf8(path@)) ==> file_name(utf8(path@)) is None,
        },
{
    std::path::Path::new(path).file_stem().and_then(|s| s.to_str()).map(String::from)
}

/// The project name for a file whose stem is `stem`: nothing without one.
pub fn project_name(stem: Option<String>) -> (r: String)
    ensures
        r@ == match stem {
            Some(s) => s@,
            None => Seq::empty(),
        },
{
    match stem {
        Some(s) => s,
        None => String::new(),
    }
}

/// The project name in the instance entries of a sheet that is its own root:
/// the stem of its file, as eeschema writes it. How a path that holds a
/// backslash or a colon, or begins with two slashes, is taken apart is up to
/// the platform.
pub fn project_name_for(sch_path: &str) -> (r: String)
    ensures
        portable(utf8(sch_path@)) ==> utf8(r@) == match file_name(utf8(sch_path@)) {
            Some(name) => stem(name),
            None => Seq::empty(),
        },
{
    let name = project_name(path_file_stem(sch_path));
    assert(utf8(Seq::<char>::empty()) =~= Seq::<u8>::empty());
    name
}

// ── Sheet hierarchy ──────────────────────────────────────────────────────────

/// A sheet symbol: its uuid, and what is known of the file it names.
pub struct SheetRef {
    pub uuid: String,
    /// The file is the one looked for.
    pub is_target: bool,
    /// The file, by index, where it exists and can be read.
    pub child: Option<usize>,
}

/// The sheet symbols of one schematic file, in file order.
pub struct SheetFile {
    pub sheets: Vec<SheetRef>,
}

/// The deepest level at which sheets are followed.
pub const MAX_SHEET_DEPTH: usize = 32;

/// The uuids of the sheets that lead from the file `from`, at level `depth`,
/// to the file looked for: depth first, in file order. Sheets below the
/// deepest level are not followed, so that a cycle ends.
pub open spec fn sheet_path(files: Seq<SheetFile>, from: int, depth: int) -> Option<Seq<Seq<char>>>
    decreases MAX_SHEET_DEPTH + 1 - depth, 1int, 0int,
{
    if depth > MAX_SHEET_DEPTH || !(0 <= from < files.len()) {
        None
    } else {
        path_from(files, from, depth, files[from].sheets@.len() as int)
    }
}

/// The same, through the last `n` sheets of the file.
pub open spec fn path_from(files: Seq<SheetFile>, from: int, depth: int, n: int) -> Option<
    Seq<Seq<char>>,
>
    decreases MAX_SHEET_DEPTH + 1 - depth, 0int, n,
    when depth <= MAX_SHEET_DEPTH
{
    let sheets = files[from].sheets@;
    if n <= 0 {
        None
    } else {
        let sheet = sheets[sheets.len() - n];
        let below = match sheet.child {
            Some(c) => sheet_path(files, c as int, depth + 1),
            None => None,
        };
        if sheet.is_target {
            Some(seq![sheet.uuid@])
        } else if below is Some {
            Some(seq![sheet.uuid@] + below->0)
        } else {
            path_from(files, from, depth, n - 1)
        }
    }
}

/// The uuids of the sheets that lead from a file to the one looked for.
pub fn find_sheet_path(files: &Vec<SheetFile>, from: usize, depth: usize) -> (r: Option<Vec<String>>)
    ensures
        match r {
            Some(p) => sheet_path(files@, from as int, depth as int) == Some(texts(p@)),
            None => sheet_path(files@, from as int, depth as int) is None,
        },
    decreases MAX_SHEET_DEPTH + 1 - depth,
{
    if depth > MAX_SHEET_DEPTH || from >= files.len() {
        return None;
    }
    let total = files[from].sheets.len();
    let mut i: usize = 0;
    while i < total
        invariant
            i <= total,
            from < files@.len(),
            depth <= MAX_SHEET_DEPTH,
            total == files@[from as int].sheets@.len(),
            sheet_path(files@, from as int, depth as int) == path_from(
                files@,
                from as int,
                depth as int,
                total - i,
            ),
        decreases total - i,
    {
        let sheet = &files[from].sheets[i];
        let mut path: Vec<String> = Vec::new();
        path.push(sheet.uuid.clone());
        assert(texts(path@) =~= seq![sheet.uuid@]);
        if sheet.is_target {
            return Some(path);
        }
        if let Some(c) = sheet.child {
            if let Some(rest) = find_sheet_path(files, c, depth + 1) {
                let mut rest = rest;
                let ghost tail = rest@;
                let ghost front = path@;
                path.append(&mut rest);
                assert(texts(path@) =~= texts(front) + texts(tail));
                return Some(path);
            }
        }
        i += 1;
    }
    None
}

/// Where a sheet sits in its project: the name and the instance path under
/// which the designators of its symbols are kept. Both belong to the root
/// sheet of the project, not to the file that holds the symbols.
pub struct SheetInstanceContext {
    /// The stem of the project file, or of the sheet when it is its own root.
    pub project_name: String,
    /// `/root-uuid[/sheet-uuid…]`, from the root down to this sheet.
    pub instance_path: String,
    /// Whether the sheet was reached from a root other than itself.
    pub is_child_sheet: bool,
}

/// What is known of the project that governs a sheet.
pub struct ProjectView {
    /// The stem of the project file.
    pub stem: Option<String>,
    /// The root sheet of the project is the sheet itself.
    pub root_is_sheet: bool,
    /// The uuid of the root sheet, where that sheet can be read and has one.
    pub root_uuid: Option<String>,
    /// The schematic files of the project, and the root among them.
    pub files: Vec<SheetFile>,
    pub root: usize,
}

/// Uuids each behind a slash.
pub open spec fn slashed(uuids: Seq<Seq<char>>) -> Seq<char>
    decreases uuids.len(),
{
    if uuids.len() == 0 {
        Seq::empty()
    } else {
        slashed(uuids.drop_last()) + "/"@ + uuids.last()
    }
}

/// The uuids that lead from the root of the project to the sheet, the root's
/// first; none when the sheet is its own root.
pub open spec fn reached(project: Option<ProjectView>) -> Option<Seq<Seq<char>>> {
    match project {
        Some(p) => match (p.root_uuid, sheet_path(p.files@, p.root as int, 0)) {
            (Some(u), Some(path)) => if p.root_is_sheet {
                None
            } else {
                Some(seq![u@] + path)
            },
            _ => None,
        },
        None => None,
    }
}

/// A sheet's place in its project. The sheet is its own root, as a loose file
/// is, when there is no project, when it is the project's root sheet, when
/// that root cannot be read or has no uuid, and when no sheet leads there.
pub fn sheet_instance_context(
    own_name: &str,
    own_uuid: &str,
    project: &Option<ProjectView>,
) -> (r: SheetInstanceContext)
    ensures
        match reached(*project) {
            Some(uuids) => {
                &&& r.project_name@ == match (project->0).stem {
                    Some(s) => s@,
                    None => Seq::empty(),
                }
                &&& r.instance_path@ == slashed(uuids)
                &&& r.is_child_sheet
            },
            None => {
                &&& r.project_name@ == own_name@
                &&& r.instance_path@ == "/"@ + own_uuid@
                &&& !r.is_child_sheet
            },
        },
{
    if let Some(p) = project {
        if !p.root_is_sheet {
            if let Some(root) = &p.root_uuid {
                if let Some(path) = find_sheet_path(&p.files, p.root, 0) {
                    let ghost all = seq![root@] + texts(path@);
                    let mut instance_path = join2("/", root.as_str());
                    proof {
                        assert(all.take(1).drop_last() =~= Seq::<Seq<char>>::empty());
                        assert(slashed(all.take(1).drop_last()) =~= Seq::<char>::empty());
                        assert(slashed(all.take(1)) =~= "/"@ + root@);
                    }
                    let mut i: usize = 0;
                    while i < path.len()
                        invariant
                            i <= path@.len(),
                            all == seq![root@] + texts(path@),
                            instance_path@ == slashed(all.take(i + 1)),
                        decreases path@.len() - i,
                    {
                        let ghost before = instance_path@;
                        instance_path.append("/");
                        instance_path.append(path[i].as_str());
                        proof {
                            assert(all.take(i + 2).drop_last() =~= all.take(i + 1));
                            assert(all.take(i + 2).last() == path@[i as int]@);
                            assert(instance_path@ =~= slashed(all.take(i + 2)));
                        }
                        i += 1;
                    }
                    assert(all.take(path@.len() as int + 1) =~= all);
                    let project_name = match &p.stem {
                        Some(s) => s.clone(),
                        None => String::new(),
                    };
                    return SheetInstanceContext { project_name, instance_path, is_child_sheet: true };
                }
            }
        }
    }
    SheetInstanceContext {
        project_name: own_name.to_owned(),
        instance_path: join2("/", own_uuid),
        is_child_sheet: false,
    }
}

/// The root uuid of a schematic. One that has none is given `fresh`.
pub fn ensure_root_uuid(uuid: &mut Option<String>, fresh: String) -> (r: String)
    ensures
        r@ == match opt_text(*old(uuid)) {
            Some(u) => u,
            None => fresh@,
        },
        opt_text(*final(uuid)) == Some(r@),
{
    match uuid {
        Some(u) => u.clone(),
        None => {
            let r = fresh.clone();
            *uuid = Some(fresh);
            r
        },
    }
}

} // verus!
