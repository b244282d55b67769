//! The files of an artifact bundle:
//!
//! ```text
//! <out>/
//!   overview.mmd
//!   project.mmd
//!   index.json
//!   entities/
//!     <sanitized-id>.mmd
//!     <sanitized-id>.meta.json
//! ```

use crate::error::{AstToMermaidError, Result};
use crate::keys::{sort_keys, sorted_keys};
use crate::paths::{below, join, part_name, parted};
use crate::text::{chars_of, str_eq, str_lt, text_lt};
use vstd::prelude::*;
use vstd::string::*;

verus! {

// ── Trusted boundary ─────────────────────────────────────────────────────────

/// What is wrong with a text as JSON; none for a JSON document.
pub uninterp spec fn json_fault(text: Seq<char>) -> Option<Seq<char>>;

/// The text under a key of a JSON document; none where the document is no
/// object, lacks the key, or has something else under it.
pub uninterp spec fn json_member(text: Seq<char>, key: Seq<char>) -> Option<Seq<char>>;

/// `serde_json::from_str` into a `serde_json::Value`: the message of the error
/// where the text is not a JSON document.
#[verifier::external_body]
fn json_check(text: &str) -> (r: Option<String>)
    ensures
        r.deep_view() == json_fault(text@),
{
    match serde_json::from_str::<serde_json::Value>(text) {
        Ok(_) => None,
        Err(e) => Some(e.to_string()),
    }
}

/// `serde_json::from_str` into a `serde_json::Value`, then `Value::get` and
/// `Value::as_str`: the text under a key of the document.
#[verifier::external_body]
fn json_text(text: &str, key: &str) -> (r: Option<String>)
    ensures
        r.deep_view() == json_member(text@, key@),
{
    let value = serde_json::from_str::<serde_json::Value>(text).ok()?;
    let member = value.get(key)?.as_str()?;
    Some(member.to_owned())
}

// ── Names ────────────────────────────────────────────────────────────────────

/// Whether a character may stand in the name of an artifact.
pub open spec fn is_safe(c: char) -> bool {
    ('a' <= c && c <= 'z') || ('A' <= c && c <= 'Z') || ('0' <= c && c <= '9') || c == '.' || c
        == '_' || c == '-'
}

/// An id with `_` for each character that may not stand in a file name.
pub open spec fn sanitized(id: Seq<char>) -> Seq<char> {
    id.map_values(
        |c: char|
            if is_safe(c) {
                c
            } else {
                '_'
            },
    )
}

/// Maps an id to a safe file name stem: `[A-Za-z0-9._-]` stays, everything else
/// becomes `_`.
pub fn sanitize_id(id: &str) -> (r: String)
    ensures
        r@ == sanitized(id@),
{
    let cs = chars_of(id);
    let ghost want = sanitized(id@);
    let mut out = String::new();
    let mut i: usize = 0;
    assert(out@ =~= want.take(0));
    while i < cs.len()
        invariant
            i <= cs.len(),
            cs@ == id@,
            want == sanitized(id@),
            out@ == want.take(i as int),
        decreases cs.len() - i,
    {
        let c = cs[i];
        let safe = ('a' <= c && c <= 'z') || ('A' <= c && c <= 'Z') || ('0' <= c && c <= '9') || c
            == '.' || c == '_' || c == '-';
        out.push(if safe { c } else { '_' });
        assert(want.take(i + 1) =~= want.take(i as int).push(want[i as int]));
        i += 1;
    }
    assert(want.take(cs.len() as int) =~= want);
    out
}

/// A sanitized id has the length of the id and holds safe characters only;
/// sanitizing it again changes nothing.
pub proof fn law_sanitized(id: Seq<char>)
    ensures
        sanitized(id).len() == id.len(),
        forall|i: int| 0 <= i < sanitized(id).len() ==> is_safe(#[trigger] sanitized(id)[i]),
        sanitized(sanitized(id)) == sanitized(id),
{
    assert(sanitized(sanitized(id)) =~= sanitized(id));
}

// ── Types ────────────────────────────────────────────────────────────────────

/// The pair of files of one entity.
#[derive(Debug)]
pub struct EntityArtifact {
    /// Canonical entity id (e.g. `code:src/lib.rs::function::foo`).
    pub id: String,
    /// Mermaid source of the entity.
    pub mmd: String,
    /// Metadata of the entity, as JSON.
    pub meta: String,
}

/// What an [`EntityArtifact`] holds.
#[verifier::ext_equal]
pub struct EntityArtifactView {
    pub id: Seq<char>,
    pub mmd: Seq<char>,
    pub meta: Seq<char>,
}

impl DeepView for EntityArtifact {
    type V = EntityArtifactView;

    open spec fn deep_view(&self) -> EntityArtifactView {
        EntityArtifactView { id: self.id@, mmd: self.mmd@, meta: self.meta@ }
    }
}

/// A whole bundle.
#[derive(Debug)]
pub struct ArtifactDir {
    /// Content of `overview.mmd`.
    pub overview_mmd: String,
    /// Content of `project.mmd`.
    pub project_mmd: String,
    /// Content of `index.json`.
    pub index_json: String,
    /// Artifacts of the entities, by id.
    pub entities: Vec<EntityArtifact>,
}

/// What an [`ArtifactDir`] holds.
#[verifier::ext_equal]
pub struct ArtifactDirView {
    pub overview_mmd: Seq<char>,
    pub project_mmd: Seq<char>,
    pub index_json: Seq<char>,
    pub entities: Seq<EntityArtifactView>,
}

impl DeepView for ArtifactDir {
    type V = ArtifactDirView;

    open spec fn deep_view(&self) -> ArtifactDirView {
        ArtifactDirView {
            overview_mmd: self.overview_mmd@,
            project_mmd: self.project_mmd@,
            index_json: self.index_json@,
            entities: self.entities.deep_view(),
        }
    }
}

/// What reading a file gave.
#[derive(Debug)]
pub enum FileState {
    /// There is no such file.
    Missing,
    /// The file could not be read; with the message.
    Unreadable(String),
    /// The content of the file.
    Text(String),
}

/// What a [`FileState`] holds.
#[verifier::ext_equal]
pub enum FileView {
    Missing,
    Unreadable(Seq<char>),
    Text(Seq<char>),
}

impl DeepView for FileState {
    type V = FileView;

    open spec fn deep_view(&self) -> FileView {
        match self {
            FileState::Missing => FileView::Missing,
            FileState::Unreadable(e) => FileView::Unreadable(e@),
            FileState::Text(s) => FileView::Text(s@),
        }
    }
}

/// A file of a directory.
#[derive(Debug)]
pub struct NamedFile {
    pub name: String,
    pub state: FileState,
}

/// What a [`NamedFile`] holds.
#[verifier::ext_equal]
pub struct NamedFileView {
    pub name: Seq<char>,
    pub state: FileView,
}

impl DeepView for NamedFile {
    type V = NamedFileView;

    open spec fn deep_view(&self) -> NamedFileView {
        NamedFileView { name: self.name@, state: self.state.deep_view() }
    }
}

/// What listing a directory gave.
#[derive(Debug)]
pub enum Listing {
    /// There is no such directory.
    Missing,
    /// The directory could not be listed; with the message.
    Unreadable(String),
    /// The files of the directory.
    Files(Vec<NamedFile>),
}

/// What a [`Listing`] holds.
#[verifier::ext_equal]
pub enum ListingView {
    Missing,
    Unreadable(Seq<char>),
    Files(Seq<NamedFileView>),
}

impl DeepView for Listing {
    type V = ListingView;

    open spec fn deep_view(&self) -> ListingView {
        match self {
            Listing::Missing => ListingView::Missing,
            Listing::Unreadable(e) => ListingView::Unreadable(e@),
            Listing::Files(fs) => ListingView::Files(fs.deep_view()),
        }
    }
}

/// The files of a bundle on disk.
#[derive(Debug)]
pub struct BundleFiles {
    /// `overview.mmd`.
    pub overview: FileState,
    /// `project.mmd`.
    pub project: FileState,
    /// `index.json`.
    pub index: FileState,
    /// The directory `entities`.
    pub entities: Listing,
}

/// What [`BundleFiles`] hold.
#[verifier::ext_equal]
pub struct BundleFilesView {
    pub overview: FileView,
    pub project: FileView,
    pub index: FileView,
    pub entities: ListingView,
}

impl DeepView for BundleFiles {
    type V = BundleFilesView;

    open spec fn deep_view(&self) -> BundleFilesView {
        BundleFilesView {
            overview: self.overview.deep_view(),
            project: self.project.deep_view(),
            index: self.index.deep_view(),
            entities: self.entities.deep_view(),
        }
    }
}

// ── Writing ──────────────────────────────────────────────────────────────────

/// The files of the entities.
pub open spec fn entity_files(es: Seq<EntityArtifactView>) -> Seq<NamedFileView>
    decreases es.len(),
{
    if es.len() == 0 {
        Seq::empty()
    } else {
        let e = es.last();
        entity_files(es.drop_last()).push(
            NamedFileView { name: sanitized(e.id) + ".mmd"@, state: FileView::Text(e.mmd) },
        ).push(
            NamedFileView { name: sanitized(e.id) + ".meta.json"@, state: FileView::Text(e.meta) },
        )
    }
}

/// The files of a bundle.
pub open spec fn files_of(d: ArtifactDirView) -> BundleFilesView {
    BundleFilesView {
        overview: FileView::Text(d.overview_mmd),
        project: FileView::Text(d.project_mmd),
        index: FileView::Text(d.index_json),
        entities: ListingView::Files(entity_files(d.entities)),
    }
}

/// The files to write for a bundle.
pub fn planned_files(artifacts: &ArtifactDir) -> (r: BundleFiles)
    ensures
        r.deep_view() == files_of(artifacts.deep_view()),
{
    let es = &artifacts.entities;
    let ghost v = es.deep_view();
    let mut files: Vec<NamedFile> = Vec::new();
    let mut i: usize = 0;
    assert(v.take(0) =~= Seq::<EntityArtifactView>::empty());
    assert(files.deep_view() =~= Seq::<NamedFileView>::empty());
    while i < es.len()
        invariant
            i <= es.len(),
            v == es.deep_view(),
            files.deep_view() == entity_files(v.take(i as int)),
        decreases es.len() - i,
    {
        let ghost had = files.deep_view();
        assert(v[i as int] == es[i as int].deep_view());
        assert(v.take(i + 1).drop_last() =~= v.take(i as int));
        assert(v.take(i + 1).last() == v[i as int]);
        let base = sanitize_id(es[i].id.as_str());
        let mmd = NamedFile {
            name: base.clone().concat(".mmd"),
            state: FileState::Text(es[i].mmd.clone()),
        };
        let meta = NamedFile {
            name: base.concat(".meta.json"),
            state: FileState::Text(es[i].meta.clone()),
        };
        let ghost a = mmd.deep_view();
        let ghost b = meta.deep_view();
        files.push(mmd);
        files.push(meta);
        assert(files.deep_view() =~= had.push(a).push(b));
        i += 1;
    }
    assert(v.take(es.len() as int) =~= v);
    BundleFiles {
        overview: FileState::Text(artifacts.overview_mmd.clone()),
        project: FileState::Text(artifacts.project_mmd.clone()),
        index: FileState::Text(artifacts.index_json.clone()),
        entities: Listing::Files(files),
    }
}

// ── Loading ──────────────────────────────────────────────────────────────────

/// Why a bundle could not be loaded.
#[verifier::ext_equal]
pub enum LoadFault {
    NotFound(Seq<char>),
    Io(Seq<char>),
    Invalid(Seq<char>),
}

/// Whether a result is the error for a fault.
pub open spec fn fails<T>(r: Result<T>, fault: LoadFault) -> bool {
    match fault {
        LoadFault::NotFound(s) => r matches Err(AstToMermaidError::ArtifactNotFound(t)) && t@ == s,
        LoadFault::Io(s) => r matches Err(AstToMermaidError::Io(t)) && t@ == s,
        LoadFault::Invalid(s) => r matches Err(AstToMermaidError::InvalidInput(t)) && t@ == s,
    }
}

/// The content of a file at a path; a file that is not there is not found.
pub open spec fn content(f: FileView, path: Seq<char>) -> std::result::Result<Seq<char>, LoadFault> {
    match f {
        FileView::Missing => Err(LoadFault::NotFound(path)),
        FileView::Unreadable(e) => Err(LoadFault::Io("read "@ + path + ": "@ + e)),
        FileView::Text(s) => Ok(s),
    }
}

/// The names of the diagrams among a list of files.
pub open spec fn diagram_names(fs: Seq<NamedFileView>) -> Seq<Seq<char>>
    decreases fs.len(),
{
    if fs.len() == 0 {
        Seq::empty()
    } else {
        let front = diagram_names(fs.drop_last());
        if parted(fs.last().name).1 == Some("mmd"@) {
            front.push(fs.last().name)
        } else {
            front
        }
    }
}

/// The file of a name; the last one, should there be several.
pub open spec fn file_named(fs: Seq<NamedFileView>, name: Seq<char>) -> FileView
    decreases fs.len(),
{
    if fs.len() == 0 {
        FileView::Missing
    } else if fs.last().name == name {
        fs.last().state
    } else {
        file_named(fs.drop_last(), name)
    }
}

/// The entity of a diagram in the directory `dir`: its metadata stand in the
/// file next to it, which names the entity.
pub open spec fn entity_at(
    dir: Seq<char>,
    fs: Seq<NamedFileView>,
    name: Seq<char>,
) -> std::result::Result<EntityArtifactView, LoadFault> {
    let meta_name = parted(name).0 + ".meta.json"@;
    let meta_path = below(dir, meta_name);
    if file_named(fs, meta_name) is Missing {
        Err(LoadFault::NotFound(meta_path))
    } else {
        match content(file_named(fs, name), below(dir, name)) {
            Err(e) => Err(e),
            Ok(mmd) => match content(file_named(fs, meta_name), meta_path) {
                Err(e) => Err(e),
                Ok(meta) => match (json_fault(meta), json_member(meta, "id"@)) {
                    (Some(e), _) => Err(LoadFault::Invalid("parse "@ + meta_path + ": "@ + e)),
                    (None, None) => Err(
                        LoadFault::Invalid(meta_path + ": missing `id` field"@),
                    ),
                    (None, Some(id)) => Ok(EntityArtifactView { id, mmd, meta }),
                },
            },
        }
    }
}

/// The entities of several diagrams, or the first fault among them.
pub open spec fn entities_at(
    dir: Seq<char>,
    fs: Seq<NamedFileView>,
    names: Seq<Seq<char>>,
) -> std::result::Result<Seq<EntityArtifactView>, LoadFault>
    decreases names.len(),
{
    if names.len() == 0 {
        Ok(Seq::empty())
    } else {
        match entities_at(dir, fs, names.drop_last()) {
            Err(e) => Err(e),
            Ok(front) => match entity_at(dir, fs, names.last()) {
                Err(e) => Err(e),
                Ok(e) => Ok(front.push(e)),
            },
        }
    }
}

/// A list in ascending order of ids with one more entity, behind those that
/// do not come after it.
pub open spec fn inserted(es: Seq<EntityArtifactView>, e: EntityArtifactView) -> Seq<
    EntityArtifactView,
>
    decreases es.len(),
{
    if es.len() > 0 && text_lt(e.id, es.last().id) {
        inserted(es.drop_last(), e).push(es.last())
    } else {
        es.push(e)
    }
}

/// The entities in ascending order of their ids; equal ids keep their order.
pub open spec fn by_id(es: Seq<EntityArtifactView>) -> Seq<EntityArtifactView>
    decreases es.len(),
{
    if es.len() == 0 {
        Seq::empty()
    } else {
        inserted(by_id(es.drop_last()), es.last())
    }
}

/// The entities of a listing of the directory `dir`, in ascending order of
/// their ids.
pub open spec fn listed(dir: Seq<char>, l: ListingView) -> std::result::Result<
    Seq<EntityArtifactView>,
    LoadFault,
> {
    match l {
        ListingView::Missing => Ok(Seq::empty()),
        ListingView::Unreadable(e) => Err(LoadFault::Io(e)),
        ListingView::Files(fs) => match entities_at(
            dir,
            fs,
            sorted_keys::<String>(diagram_names(fs)),
        ) {
            Err(e) => Err(e),
            Ok(es) => Ok(by_id(es)),
        },
    }
}

/// What loading a bundle from the directory `dir` gives. A missing project
/// view is empty; the overview and the index must be there.
pub open spec fn loaded(dir: Seq<char>, f: BundleFilesView) -> std::result::Result<
    ArtifactDirView,
    LoadFault,
> {
    let index_path = below(dir, "index.json"@);
    if f.overview is Missing {
        Err(LoadFault::NotFound(below(dir, "overview.mmd"@)))
    } else if f.index is Missing {
        Err(LoadFault::NotFound(index_path))
    } else {
        match content(f.overview, below(dir, "overview.mmd"@)) {
            Err(e) => Err(e),
            Ok(overview_mmd) => match project_content(f.project, below(dir, "project.mmd"@)) {
                Err(e) => Err(e),
                Ok(project_mmd) => match content(f.index, index_path) {
                    Err(e) => Err(e),
                    Ok(index_json) => match json_fault(index_json) {
                        Some(e) => Err(LoadFault::Invalid("parse "@ + index_path + ": "@ + e)),
                        None => match listed(below(dir, "entities"@), f.entities) {
                            Err(e) => Err(e),
                            Ok(entities) => Ok(
                                ArtifactDirView { overview_mmd, project_mmd, index_json, entities },
                            ),
                        },
                    },
                },
            },
        }
    }
}

/// The project view; empty where it is not there.
pub open spec fn project_content(f: FileView, path: Seq<char>) -> std::result::Result<
    Seq<char>,
    LoadFault,
> {
    if f is Missing {
        Ok(Seq::empty())
    } else {
        content(f, path)
    }
}

/// The content of a file at a path.
fn read_text(f: &FileState, path: &str) -> (r: Result<String>)
    ensures
        match content(f.deep_view(), path@) {
            Ok(s) => r matches Ok(t) && t@ == s,
            Err(e) => fails(r, e),
        },
{
    match f {
        FileState::Missing => Err(AstToMermaidError::ArtifactNotFound(path.to_owned())),
        FileState::Unreadable(e) => Err(
            AstToMermaidError::Io(
                "read ".to_owned().concat(path).concat(": ").concat(e.as_str()),
            ),
        ),
        FileState::Text(s) => Ok(s.clone()),
    }
}

/// The names of the diagrams among a list of files.
fn find_diagrams(fs: &Vec<NamedFile>) -> (r: Vec<String>)
    ensures
        r.deep_view() == diagram_names(fs.deep_view()),
{
    let ghost v = fs.deep_view();
    let mut out: Vec<String> = Vec::new();
    let mut i: usize = 0;
    assert(v.take(0) =~= Seq::<NamedFileView>::empty());
    assert(out.deep_view() =~= Seq::<Seq<char>>::empty());
    while i < fs.len()
        invariant
            i <= fs.len(),
            v == fs.deep_view(),
            out.deep_view() == diagram_names(v.take(i as int)),
        decreases fs.len() - i,
    {
        let ghost had = out.deep_view();
        assert(v[i as int] == fs[i as int].deep_view());
        assert(v.take(i + 1).drop_last() =~= v.take(i as int));
        assert(v.take(i + 1).last() == v[i as int]);
        let (_, extension) = part_name(fs[i].name.as_str());
        if let Some(ext) = extension {
            if str_eq(ext.as_str(), "mmd") {
                out.push(fs[i].name.clone());
                assert(out.deep_view() =~= had.push(v[i as int].name));
            }
        }
        i += 1;
    }
    assert(v.take(fs.len() as int) =~= v);
    out
}

/// The position of the file of a name.
fn find_file(fs: &Vec<NamedFile>, name: &str) -> (r: Option<usize>)
    ensures
        match r {
            Some(i) => i < fs.len() && file_named(fs.deep_view(), name@) == fs[i as int].deep_view().state,
            None => file_named(fs.deep_view(), name@) is Missing,
        },
{
    let ghost v = fs.deep_view();
    let mut i: usize = fs.len();
    assert(v.take(fs.len() as int) =~= v);
    while i > 0
        invariant
            i <= fs.len(),
            v == fs.deep_view(),
            file_named(v, name@) == file_named(v.take(i as int), name@),
        decreases i,
    {
        i -= 1;
        assert(v[i as int] == fs[i as int].deep_view());
        assert(v.take(i + 1).drop_last() =~= v.take(i as int));
        assert(v.take(i + 1).last() == v[i as int]);
        if str_eq(fs[i].name.as_str(), name) {
            return Some(i);
        }
    }
    None
}

/// The entity of a diagram.
fn load_entity(dir: &str, fs: &Vec<NamedFile>, name: &str) -> (r: Result<EntityArtifact>)
    ensures
        match entity_at(dir@, fs.deep_view(), name@) {
            Ok(e) => r matches Ok(x) && x.deep_view() == e,
            Err(e) => fails(r, e),
        },
{
    let (stem, _) = part_name(name);
    let meta_name = stem.concat(".meta.json");
    let meta_path = join(dir, meta_name.as_str());
    let missing = FileState::Missing;
    let meta_state = match find_file(fs, meta_name.as_str()) {
        Some(i) => &fs[i].state,
        None => &missing,
    };
    if let FileState::Missing = meta_state {
        return Err(AstToMermaidError::ArtifactNotFound(meta_path));
    }
    let mmd_state = match find_file(fs, name) {
        Some(i) => &fs[i].state,
        None => &missing,
    };
    let mmd_path = join(dir, name);
    let mmd = match read_text(mmd_state, mmd_path.as_str()) {
        Ok(s) => s,
        Err(e) => {
            return Err(e);
        },
    };
    let meta = match read_text(meta_state, meta_path.as_str()) {
        Ok(s) => s,
        Err(e) => {
            return Err(e);
        },
    };
    if let Some(e) = json_check(meta.as_str()) {
        let text = "parse ".to_owned().concat(meta_path.as_str()).concat(": ").concat(e.as_str());
        return Err(AstToMermaidError::InvalidInput(text));
    }
    match json_text(meta.as_str(), "id") {
        Some(id) => Ok(EntityArtifact { id, mmd, meta }),
        None => Err(AstToMermaidError::InvalidInput(meta_path.concat(": missing `id` field"))),
    }
}

/// Puts an entity in its place in a list in ascending order of ids.
fn insert_by_id(es: &mut Vec<EntityArtifact>, e: EntityArtifact)
    ensures
        final(es).deep_view() == inserted(old(es).deep_view(), e.deep_view()),
{
    let ghost v = es.deep_view();
    let ghost ev = e.deep_view();
    let mut i: usize = es.len();
    assert(v.take(es.len() as int) =~= v);
    assert(v.skip(es.len() as int) =~= Seq::<EntityArtifactView>::empty());
    assert(inserted(v.take(i as int), ev) + v.skip(i as int) =~= inserted(v, ev));
    while i > 0 && str_lt(e.id.as_str(), es[i - 1].id.as_str())
        invariant
            i <= es.len(),
            v == es.deep_view(),
            ev == e.deep_view(),
            inserted(v, ev) == inserted(v.take(i as int), ev) + v.skip(i as int),
        decreases i,
    {
        proof {
            let a = v.take(i as int);
            assert(a.last() == v[i - 1]);
            assert(v[i - 1] == es[i - 1].deep_view());
            assert(a.drop_last() =~= v.take(i - 1));
            assert(inserted(a, ev) == inserted(v.take(i - 1), ev).push(v[i - 1]));
            assert(inserted(v.take(i - 1), ev) + v.skip(i - 1) =~= inserted(a, ev) + v.skip(
                i as int,
            ));
        }
        i -= 1;
    }
    proof {
        let a = v.take(i as int);
        if i > 0 {
            assert(a.last() == v[i - 1]);
            assert(v[i - 1] == es[i - 1].deep_view());
        }
        assert(inserted(a, ev) == a.push(ev));
    }
    es.insert(i, e);
    assert(es.deep_view() =~= v.insert(i as int, ev));
    assert(es.deep_view() =~= v.take(i as int).push(ev) + v.skip(i as int));
}

/// The entities of a list, in ascending order of their ids.
fn sort_by_id(es: Vec<EntityArtifact>) -> (r: Vec<EntityArtifact>)
    ensures
        r.deep_view() == by_id(es.deep_view()),
{
    let ghost v = es.deep_view();
    let mut out: Vec<EntityArtifact> = Vec::new();
    let mut i: usize = 0;
    assert(v.take(0) =~= Seq::<EntityArtifactView>::empty());
    assert(out.deep_view() =~= Seq::<EntityArtifactView>::empty());
    while i < es.len()
        invariant
            i <= es.len(),
            v == es.deep_view(),
            out.deep_view() == by_id(v.take(i as int)),
        decreases es.len() - i,
    {
        assert(v[i as int] == es[i as int].deep_view());
        assert(v.take(i + 1).drop_last() =~= v.take(i as int));
        assert(v.take(i + 1).last() == v[i as int]);
        let e = EntityArtifact {
            id: es[i].id.clone(),
            mmd: es[i].mmd.clone(),
            meta: es[i].meta.clone(),
        };
        insert_by_id(&mut out, e);
        i += 1;
    }
    assert(v.take(es.len() as int) =~= v);
    out
}

/// The entities of a listing of the directory `dir`.
fn load_entities(dir: &str, l: &Listing) -> (r: Result<Vec<EntityArtifact>>)
    ensures
        match listed(dir@, l.deep_view()) {
            Ok(es) => r matches Ok(x) && x.deep_view() == es,
            Err(e) => fails(r, e),
        },
{
    match l {
        Listing::Missing => {
            let none: Vec<EntityArtifact> = Vec::new();
            assert(none.deep_view() =~= Seq::<EntityArtifactView>::empty());
            Ok(none)
        },
        Listing::Unreadable(e) => Err(AstToMermaidError::Io(e.clone())),
        Listing::Files(fs) => {
            let ghost v = fs.deep_view();
            let diagrams = find_diagrams(fs);
            let names = sort_keys(&diagrams);
            let ghost ns = names.deep_view();
            let mut es: Vec<EntityArtifact> = Vec::new();
            let mut i: usize = 0;
            assert(ns.take(0) =~= Seq::<Seq<char>>::empty());
            assert(es.deep_view() =~= Seq::<EntityArtifactView>::empty());
            while i < names.len()
                invariant
                    i <= names.len(),
                    v == fs.deep_view(),
                    ns == names.deep_view(),
                    ns == sorted_keys::<String>(diagram_names(v)),
                    l.deep_view() == ListingView::Files(v),
                    entities_at(dir@, v, ns.take(i as int)) == Ok::<
                        Seq<EntityArtifactView>,
                        LoadFault,
                    >(es.deep_view()),
                decreases names.len() - i,
            {
                let ghost had = es.deep_view();
                assert(ns[i as int] == names[i as int]@);
                assert(ns.take(i + 1).drop_last() =~= ns.take(i as int));
                assert(ns.take(i + 1).last() == ns[i as int]);
                match load_entity(dir, fs, names[i].as_str()) {
                    Ok(e) => {
                        let ghost ev = e.deep_view();
                        es.push(e);
                        assert(es.deep_view() =~= had.push(ev));
                    },
                    Err(e) => {
                        proof {
                            lemma_first_fault(dir@, v, ns, i + 1);
                        }
                        return Err(e);
                    },
                }
                i += 1;
            }
            assert(ns.take(names.len() as int) =~= ns);
            Ok(sort_by_id(es))
        },
    }
}

/// A fault in the front of a list of diagrams is the fault of the list.
proof fn lemma_first_fault(
    dir: Seq<char>,
    fs: Seq<NamedFileView>,
    names: Seq<Seq<char>>,
    n: int,
)
    requires
        0 <= n <= names.len(),
        entities_at(dir, fs, names.take(n)) is Err,
    ensures
        entities_at(dir, fs, names) == entities_at(dir, fs, names.take(n)),
    decreases names.len() - n,
{
    if n < names.len() {
        assert(names.take(n + 1).drop_last() =~= names.take(n));
        lemma_first_fault(dir, fs, names, n + 1);
    } else {
        assert(names.take(n) =~= names);
    }
}

/// Loads a bundle from the files of the directory `dir`.
pub fn load_artifact_dir(dir: &str, files: &BundleFiles) -> (r: Result<ArtifactDir>)
    ensures
        match loaded(dir@, files.deep_view()) {
            Ok(d) => r matches Ok(x) && x.deep_view() == d,
            Err(e) => fails(r, e),
        },
{
    let overview_path = join(dir, "overview.mmd");
    let project_path = join(dir, "project.mmd");
    let index_path = join(dir, "index.json");
    if let FileState::Missing = &files.overview {
        return Err(AstToMermaidError::ArtifactNotFound(overview_path));
    }
    if let FileState::Missing = &files.index {
        return Err(AstToMermaidError::ArtifactNotFound(index_path));
    }
    let overview_mmd = match read_text(&files.overview, overview_path.as_str()) {
        Ok(s) => s,
        Err(e) => {
            return Err(e);
        },
    };
    let project_mmd = match &files.project {
        FileState::Missing => {
            let none = String::new();
            assert(none@ =~= Seq::<char>::empty());
            none
        },
        _ => match read_text(&files.project, project_path.as_str()) {
            Ok(s) => s,
            Err(e) => {
                return Err(e);
            },
        },
    };
    let index_json = match read_text(&files.index, index_path.as_str()) {
        Ok(s) => s,
        Err(e) => {
            return Err(e);
        },
    };
    if let Some(e) = json_check(index_json.as_str()) {
        let text = "parse ".to_owned().concat(index_path.as_str()).concat(": ").concat(e.as_str());
        return Err(AstToMermaidError::InvalidInput(text));
    }
    let entities_dir = join(dir, "entities");
    match load_entities(entities_dir.as_str(), &files.entities) {
        Ok(entities) => Ok(ArtifactDir { overview_mmd, project_mmd, index_json, entities }),
        Err(e) => Err(e),
    }
}

} // verus!
