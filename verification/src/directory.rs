//! The folder structure of a vault: folders (each with an optional parent
//! folder) and the mapping of notes to folders. Ids are the 128-bit values
//! of UUIDs.
use vstd::prelude::*;

verus! {

/// A folder: its id, name and parent folder (none at the root).
#[derive(Debug)]
pub struct Folder {
    pub id: u128,
    pub name: String,
    pub parent: Option<u128>,
}

/// A note placed in a folder.
#[derive(Debug, Clone, Copy, PartialEq, Eq, Structural)]
pub struct NoteMapping {
    pub note: u128,
    pub folder: u128,
}

/// The folders of a vault and where its notes are; a note without a
/// mapping is at the root.
#[derive(Debug)]
pub struct DirectoryStructure {
    pub folders: Vec<Folder>,
    pub mappings: Vec<NoteMapping>,
}

/// Why a folder operation was refused.
#[derive(Debug, Clone, Copy, PartialEq, Eq, Structural)]
pub enum DirectoryError {
    FolderNotFound,
}

impl DirectoryError {
    /// The message of the error.
    pub fn message(&self) -> (r: String)
        ensures
            r@ == "folder not found"@,
    {
        "folder not found".to_string()
    }
}

/// A fresh random UUID, as its 128-bit value.
///
/// Calls `uuid::Uuid::new_v4` (and `Uuid::as_u128`). Its value depends on
/// the system's random source; what is stated is what holds of every
/// outcome: the version field (bits 76 to 79) is 4 and the variant (bits 62
/// and 63) is 0b10, as `new_v4` sets them.
#[verifier::external_body]
fn new_uuid() -> (r: u128)
    ensures
        (r >> 76u128) & 0xFu128 == 4,
        (r >> 62u128) & 0x3u128 == 2,
{
    uuid::Uuid::new_v4().as_u128()
}

/// A copy of a folder.
pub fn copy_folder(f: &Folder) -> (r: Folder)
    ensures
        r == *f,
{
    Folder { id: f.id, name: f.name.clone(), parent: f.parent }
}

/// Index of the first folder with the id, if any.
pub open spec fn folder_index(fs: Seq<Folder>, id: u128) -> Option<int>
    decreases fs.len(),
{
    if fs.len() == 0 {
        None
    } else if fs[0].id == id {
        Some(0)
    } else {
        match folder_index(fs.drop_first(), id) {
            Some(k) => Some(k + 1),
            None => None,
        }
    }
}

/// The folder of the first mapping of the note, if any.
pub open spec fn note_folder(ms: Seq<NoteMapping>, note: u128) -> Option<u128>
    decreases ms.len(),
{
    if ms.len() == 0 {
        None
    } else if ms[0].note == note {
        Some(ms[0].folder)
    } else {
        note_folder(ms.drop_first(), note)
    }
}

/// The mappings of other notes than `note`, in order.
pub open spec fn other_notes(ms: Seq<NoteMapping>, note: u128) -> Seq<NoteMapping>
    decreases ms.len(),
{
    if ms.len() == 0 {
        seq![]
    } else {
        other_notes(ms.drop_last(), note) + if ms.last().note != note {
            seq![ms.last()]
        } else {
            seq![]
        }
    }
}

/// The mappings to other folders than `folder`, in order.
pub open spec fn other_folders_notes(ms: Seq<NoteMapping>, folder: u128) -> Seq<NoteMapping>
    decreases ms.len(),
{
    if ms.len() == 0 {
        seq![]
    } else {
        other_folders_notes(ms.drop_last(), folder) + if ms.last().folder != folder {
            seq![ms.last()]
        } else {
            seq![]
        }
    }
}

/// The folders once `id` is deleted: its subfolders moved to its parent,
/// then every folder with the id removed, in order.
pub open spec fn after_delete(fs: Seq<Folder>, id: u128, parent: Option<u128>) -> Seq<Folder>
    decreases fs.len(),
{
    if fs.len() == 0 {
        seq![]
    } else {
        let f = fs.last();
        let g = if f.parent == Some(id) {
            Folder { parent, ..f }
        } else {
            f
        };
        after_delete(fs.drop_last(), id, parent) + if f.id != id {
            seq![g]
        } else {
            seq![]
        }
    }
}

pub proof fn lemma_folder_index(fs: Seq<Folder>, id: u128)
    ensures
        folder_index(fs, id) matches Some(k) ==> 0 <= k < fs.len() && fs[k].id == id && forall|
            q: int,
        |
            0 <= q < k ==> fs[q].id != id,
        folder_index(fs, id) is None ==> forall|q: int| 0 <= q < fs.len() ==> fs[q].id != id,
    decreases fs.len(),
{
    if fs.len() > 0 && fs[0].id != id {
        lemma_folder_index(fs.drop_first(), id);
        if let Some(k) = folder_index(fs.drop_first(), id) {
            assert forall|q: int| 0 <= q < k + 1 implies fs[q].id != id by {
                if q > 0 {
                    assert(fs[q] == fs.drop_first()[q - 1]);
                }
            }
        } else {
            assert forall|q: int| 0 <= q < fs.len() implies fs[q].id != id by {
                if q > 0 {
                    assert(fs[q] == fs.drop_first()[q - 1]);
                }
            }
        }
    }
}

impl Default for DirectoryStructure {
    /// No folders, no mappings.
    fn default() -> (r: Self)
        ensures
            r.folders@.len() == 0,
            r.mappings@.len() == 0,
    {
        DirectoryStructure { folders: Vec::new(), mappings: Vec::new() }
    }
}

impl DirectoryStructure {
    /// No folders, no mappings.
    pub fn new() -> (r: Self)
        ensures
            r.folders@.len() == 0,
            r.mappings@.len() == 0,
    {
        DirectoryStructure { folders: Vec::new(), mappings: Vec::new() }
    }

    /// Adds a folder with the given id, name and parent, and returns it.
    pub fn create_folder_with_id(&mut self, id: u128, name: &str, parent: Option<u128>) -> (r: Folder)
        ensures
            r.id == id,
            r.name@ == name@,
            r.parent == parent,
            final(self).folders@ == old(self).folders@.push(r),
            final(self).mappings@ == old(self).mappings@,
    {
        let folder = Folder { id, name: name.to_owned(), parent };
        self.folders.push(copy_folder(&folder));
        folder
    }

    /// Adds a folder with a fresh random id, the given name and parent, and
    /// returns it.
    pub fn create_folder(&mut self, name: &str, parent: Option<u128>) -> (r: Folder)
        ensures
            r.name@ == name@,
            r.parent == parent,
            final(self).folders@ == old(self).folders@.push(r),
            final(self).mappings@ == old(self).mappings@,
    {
        let id = new_uuid();
        self.create_folder_with_id(id, name, parent)
    }

    /// Puts the note in the folder (`None`: at the root), replacing where it
    /// was.
    pub fn move_note_to_folder(&mut self, note_id: u128, folder_id: Option<u128>)
        ensures
            final(self).folders@ == old(self).folders@,
            final(self).mappings@ == other_notes(old(self).mappings@, note_id) + match folder_id {
                Some(f) => seq![NoteMapping { note: note_id, folder: f }],
                None => seq![],
            },
    {
        let ghost ms = self.mappings@;
        let mut kept: Vec<NoteMapping> = Vec::new();
        let mut k: usize = 0;
        while k < self.mappings.len()
            invariant
                k <= self.mappings@.len(),
                ms == self.mappings@,
                kept@ == other_notes(ms.take(k as int), note_id),
            decreases self.mappings@.len() - k,
        {
            let m = self.mappings[k];
            if m.note != note_id {
                kept.push(m);
            }
            proof {
                assert(ms.take(k + 1).drop_last() =~= ms.take(k as int));
                assert(kept@ =~= other_notes(ms.take(k + 1), note_id));
            }
            k += 1;
        }
        proof {
            assert(ms.take(ms.len() as int) =~= ms);
        }
        if let Some(fid) = folder_id {
            kept.push(NoteMapping { note: note_id, folder: fid });
        }
        self.mappings = kept;
        proof {
            match folder_id {
                Some(f) => {},
                None => {
                    assert(self.mappings@ =~= other_notes(ms, note_id) + Seq::<NoteMapping>::empty());
                },
            }
        }
    }

    /// The folder of the note, if it is in one.
    pub fn get_folder_for_note(&self, note_id: u128) -> (r: Option<u128>)
        ensures
            r == note_folder(self.mappings@, note_id),
    {
        let mut k: usize = 0;
        proof {
            assert(self.mappings@.skip(0) =~= self.mappings@);
        }
        while k < self.mappings.len()
            invariant
                k <= self.mappings@.len(),
                note_folder(self.mappings@.skip(k as int), note_id) == note_folder(
                    self.mappings@,
                    note_id,
                ),
            decreases self.mappings@.len() - k,
        {
            proof {
                assert(self.mappings@.skip(k as int).drop_first() =~= self.mappings@.skip(k + 1));
            }
            if self.mappings[k].note == note_id {
                return Some(self.mappings[k].folder);
            }
            k += 1;
        }
        None
    }

    /// Index of the first folder with the id.
    fn find_folder(&self, folder_id: u128) -> (r: Option<usize>)
        ensures
            match r {
                Some(k) => folder_index(self.folders@, folder_id) == Some(k as int),
                None => folder_index(self.folders@, folder_id) is None,
            },
    {
        let mut k: usize = 0;
        proof {
            assert(self.folders@.skip(0) =~= self.folders@);
        }
        while k < self.folders.len()
            invariant
                k <= self.folders@.len(),
                match folder_index(self.folders@.skip(k as int), folder_id) {
                    Some(j) => folder_index(self.folders@, folder_id) == Some(j + k),
                    None => folder_index(self.folders@, folder_id) is None,
                },
            decreases self.folders@.len() - k,
        {
            proof {
                assert(self.folders@.skip(k as int).drop_first() =~= self.folders@.skip(k + 1));
            }
            if self.folders[k].id == folder_id {
                return Some(k);
            }
            k += 1;
        }
        None
    }

    /// The first folder with the id.
    pub fn get_folder(&self, folder_id: u128) -> (r: Option<&Folder>)
        ensures
            match folder_index(self.folders@, folder_id) {
                Some(k) => r == Some(&self.folders@[k]),
                None => r is None,
            },
    {
        match self.find_folder(folder_id) {
            Some(k) => {
                proof {
                    lemma_folder_index(self.folders@, folder_id);
                }
                Some(&self.folders[k])
            },
            None => None,
        }
    }

    /// Renames the first folder with the id; false when there is none.
    pub fn rename_folder(&mut self, folder_id: u128, new_name: &str) -> (r: bool)
        ensures
            r == (folder_index(old(self).folders@, folder_id) is Some),
            final(self).mappings@ == old(self).mappings@,
            match folder_index(old(self).folders@, folder_id) {
                Some(k) => final(self).folders@.len() == old(self).folders@.len() && (forall|q: int|
                    0 <= q < old(self).folders@.len() && q != k ==> final(self).folders@[q]
                        == old(self).folders@[q]) && final(self).folders@[k].id == folder_id
                    && final(self).folders@[k].parent == old(self).folders@[k].parent
                    && final(self).folders@[k].name@ == new_name@,
                None => final(self).folders@ == old(self).folders@,
            },
    {
        match self.find_folder(folder_id) {
            Some(k) => {
                proof {
                    lemma_folder_index(self.folders@, folder_id);
                }
                self.folders[k].name = new_name.to_owned();
                true
            },
            None => false,
        }
    }

    /// Deletes the folder: its notes go to the root, its subfolders to its
    /// parent (that of the first folder with the id), and every folder with
    /// the id is removed. Refused when there is no such folder.
    pub fn delete_folder(&mut self, folder_id: u128) -> (r: Result<(), DirectoryError>)
        ensures
            match folder_index(old(self).folders@, folder_id) {
                None => r == Err::<(), DirectoryError>(DirectoryError::FolderNotFound)
                    && final(self).folders@ == old(self).folders@ && final(self).mappings@ == old(
                    self,
                ).mappings@,
                Some(k) => r is Ok && final(self).mappings@ == other_folders_notes(
                    old(self).mappings@,
                    folder_id,
                ) && final(self).folders@ == after_delete(
                    old(self).folders@,
                    folder_id,
                    old(self).folders@[k].parent,
                ),
            },
    {
        let k = match self.find_folder(folder_id) {
            Some(k) => k,
            None => {
                return Err(DirectoryError::FolderNotFound);
            },
        };
        proof {
            lemma_folder_index(self.folders@, folder_id);
        }
        let parent = self.folders[k].parent;
        let ghost ms = self.mappings@;
        let ghost fs = self.folders@;
        let mut kept: Vec<NoteMapping> = Vec::new();
        let mut i: usize = 0;
        while i < self.mappings.len()
            invariant
                i <= self.mappings@.len(),
                ms == self.mappings@,
                kept@ == other_folders_notes(ms.take(i as int), folder_id),
            decreases self.mappings@.len() - i,
        {
            let m = self.mappings[i];
            if m.folder != folder_id {
                kept.push(m);
            }
            proof {
                assert(ms.take(i + 1).drop_last() =~= ms.take(i as int));
                assert(kept@ =~= other_folders_notes(ms.take(i + 1), folder_id));
            }
            i += 1;
        }
        proof {
            assert(ms.take(ms.len() as int) =~= ms);
        }
        self.mappings = kept;
        let mut folders: Vec<Folder> = Vec::new();
        let mut j: usize = 0;
        while j < self.folders.len()
            invariant
                j <= self.folders@.len(),
                fs == self.folders@,
                folders@ == after_delete(fs.take(j as int), folder_id, parent),
            decreases self.folders@.len() - j,
        {
            let f = &self.folders[j];
            if f.id != folder_id {
                let p = if f.parent == Some(folder_id) {
                    parent
                } else {
                    f.parent
                };
                folders.push(Folder { id: f.id, name: f.name.clone(), parent: p });
            }
            proof {
                assert(fs.take(j + 1).drop_last() =~= fs.take(j as int));
                assert(folders@ =~= after_delete(fs.take(j + 1), folder_id, parent));
            }
            j += 1;
        }
        proof {
            assert(fs.take(fs.len() as int) =~= fs);
        }
        self.folders = folders;
        Ok(())
    }
}


/// A folder with its subfolders (as trees) and its notes.
#[derive(Debug)]
pub struct FolderTree {
    pub folder: Folder,
    pub children: Vec<FolderTree>,
    pub notes: Vec<u128>,
}

/// Model of [`FolderTree`].
pub struct TreeView {
    pub folder: Folder,
    pub children: Seq<TreeView>,
    pub notes: Seq<u128>,
}

impl FolderTree {
    pub open spec fn view(&self) -> TreeView
        decreases self,
    {
        TreeView { folder: self.folder, children: tree_views(self.children@), notes: self.notes@ }
    }
}

/// The models of a list of folder trees.
pub open spec fn tree_views(s: Seq<FolderTree>) -> Seq<TreeView>
    decreases s,
{
    if s.len() == 0 {
        seq![]
    } else {
        tree_views(s.drop_last()) + seq![s[s.len() - 1].view()]
    }
}

/// The folders at the root, in order.
pub open spec fn root_folders(fs: Seq<Folder>) -> Seq<Folder>
    decreases fs.len(),
{
    if fs.len() == 0 {
        seq![]
    } else {
        root_folders(fs.drop_last()) + if fs.last().parent is None {
            seq![fs.last()]
        } else {
            seq![]
        }
    }
}

/// The subfolders of a folder, in order.
pub open spec fn subfolders(fs: Seq<Folder>, id: u128) -> Seq<Folder>
    decreases fs.len(),
{
    if fs.len() == 0 {
        seq![]
    } else {
        subfolders(fs.drop_last(), id) + if fs.last().parent == Some(id) {
            seq![fs.last()]
        } else {
            seq![]
        }
    }
}

/// The notes in a folder, in the order of their mappings.
pub open spec fn notes_in(ms: Seq<NoteMapping>, id: u128) -> Seq<u128>
    decreases ms.len(),
{
    if ms.len() == 0 {
        seq![]
    } else {
        notes_in(ms.drop_last(), id) + if ms.last().folder == id {
            seq![ms.last().note]
        } else {
            seq![]
        }
    }
}

/// The tree of a folder, its subfolders followed `fuel` levels down.
pub open spec fn tree_of(fs: Seq<Folder>, ms: Seq<NoteMapping>, f: Folder, fuel: nat) -> TreeView
    decreases fuel, 0nat,
{
    TreeView {
        folder: f,
        children: if fuel > 0 {
            trees_of(fs, ms, subfolders(fs, f.id), (fuel - 1) as nat)
        } else {
            seq![]
        },
        notes: notes_in(ms, f.id),
    }
}

/// The trees of a list of folders.
pub open spec fn trees_of(fs: Seq<Folder>, ms: Seq<NoteMapping>, cs: Seq<Folder>, fuel: nat) -> Seq<TreeView>
    decreases fuel, cs.len() + 1,
{
    if cs.len() == 0 {
        seq![]
    } else {
        trees_of(fs, ms, cs.drop_last(), fuel) + seq![tree_of(fs, ms, cs.last(), fuel)]
    }
}

/// Following subfolders from the folders `cs` ends within `fuel` levels:
/// no chain of subfolders is longer.
pub open spec fn nests_within(fs: Seq<Folder>, cs: Seq<Folder>, fuel: nat) -> bool
    decreases fuel, cs.len(),
{
    if cs.len() == 0 {
        true
    } else {
        nests_within(fs, cs.drop_last(), fuel) && fuel > 0 && nests_within(
            fs,
            subfolders(fs, cs.last().id),
            (fuel - 1) as nat,
        )
    }
}

impl DirectoryStructure {
    /// The subfolders of a folder, copied, in order.
    fn subfolders_of(&self, id: u128) -> (r: Vec<Folder>)
        ensures
            r@ == subfolders(self.folders@, id),
    {
        let ghost fs = self.folders@;
        let mut r: Vec<Folder> = Vec::new();
        let mut k: usize = 0;
        while k < self.folders.len()
            invariant
                k <= self.folders@.len(),
                fs == self.folders@,
                r@ == subfolders(fs.take(k as int), id),
            decreases self.folders@.len() - k,
        {
            if self.folders[k].parent == Some(id) {
                r.push(copy_folder(&self.folders[k]));
            }
            proof {
                assert(fs.take(k + 1).drop_last() =~= fs.take(k as int));
                assert(r@ =~= subfolders(fs.take(k + 1), id));
            }
            k += 1;
        }
        proof {
            assert(fs.take(fs.len() as int) =~= fs);
        }
        r
    }

    /// The notes of a folder, in order.
    fn notes_of(&self, id: u128) -> (r: Vec<u128>)
        ensures
            r@ == notes_in(self.mappings@, id),
    {
        let ghost ms = self.mappings@;
        let mut r: Vec<u128> = Vec::new();
        let mut k: usize = 0;
        while k < self.mappings.len()
            invariant
                k <= self.mappings@.len(),
                ms == self.mappings@,
                r@ == notes_in(ms.take(k as int), id),
            decreases self.mappings@.len() - k,
        {
            if self.mappings[k].folder == id {
                r.push(self.mappings[k].note);
            }
            proof {
                assert(ms.take(k + 1).drop_last() =~= ms.take(k as int));
                assert(r@ =~= notes_in(ms.take(k + 1), id));
            }
            k += 1;
        }
        proof {
            assert(ms.take(ms.len() as int) =~= ms);
        }
        r
    }

    /// The tree of a folder, `fuel` levels down.
    fn build_subtree(&self, folder: &Folder, fuel: usize) -> (r: FolderTree)
        ensures
            r@ == tree_of(self.folders@, self.mappings@, *folder, fuel as nat),
        decreases fuel,
    {
        let kids = self.subfolders_of(folder.id);
        let notes = self.notes_of(folder.id);
        let mut children: Vec<FolderTree> = Vec::new();
        if fuel > 0 {
            let ghost fs = self.folders@;
            let ghost ms = self.mappings@;
            let mut k: usize = 0;
            while k < kids.len()
                invariant
                    k <= kids@.len(),
                    fuel > 0,
                    fs == self.folders@,
                    ms == self.mappings@,
                    tree_views(children@) == trees_of(fs, ms, kids@.take(k as int), (fuel - 1) as nat),
                decreases kids@.len() - k,
            {
                let t = self.build_subtree(&kids[k], fuel - 1);
                let ghost before = children@;
                children.push(t);
                proof {
                    assert(children@.drop_last() =~= before);
                    assert(kids@.take(k + 1).drop_last() =~= kids@.take(k as int));
                }
                k += 1;
            }
            proof {
                assert(kids@.take(kids@.len() as int) =~= kids@);
            }
        }
        FolderTree { folder: copy_folder(folder), children, notes }
    }

    /// The folder trees from the root folders, in order. Defined when no
    /// chain of subfolders is longer than the number of folders, that is,
    /// when following subfolders from the root ends.
    pub fn build_tree(&self) -> (r: Vec<FolderTree>)
        requires
            nests_within(self.folders@, root_folders(self.folders@), self.folders@.len()),
        ensures
            tree_views(r@) == trees_of(
                self.folders@,
                self.mappings@,
                root_folders(self.folders@),
                self.folders@.len(),
            ),
    {
        let ghost fs = self.folders@;
        let ghost ms = self.mappings@;
        let n = self.folders.len();
        let mut roots: Vec<Folder> = Vec::new();
        let mut k: usize = 0;
        while k < n
            invariant
                k <= n,
                n == self.folders@.len(),
                fs == self.folders@,
                roots@ == root_folders(fs.take(k as int)),
            decreases n - k,
        {
            if self.folders[k].parent.is_none() {
                roots.push(copy_folder(&self.folders[k]));
            }
            proof {
                assert(fs.take(k + 1).drop_last() =~= fs.take(k as int));
                assert(roots@ =~= root_folders(fs.take(k + 1)));
            }
            k += 1;
        }
        proof {
            assert(fs.take(n as int) =~= fs);
        }
        let mut r: Vec<FolderTree> = Vec::new();
        let mut j: usize = 0;
        while j < roots.len()
            invariant
                j <= roots@.len(),
                n == self.folders@.len(),
                fs == self.folders@,
                ms == self.mappings@,
                tree_views(r@) == trees_of(fs, ms, roots@.take(j as int), n as nat),
            decreases roots@.len() - j,
        {
            let t = self.build_subtree(&roots[j], n);
            let ghost before = r@;
            r.push(t);
            proof {
                assert(r@.drop_last() =~= before);
                assert(roots@.take(j + 1).drop_last() =~= roots@.take(j as int));
            }
            j += 1;
        }
        proof {
            assert(roots@.take(roots@.len() as int) =~= roots@);
        }
        r
    }
}


impl DirectoryStructure {
    /// Whether the folders `cs` nest within `fuel` levels.
    fn check_nesting(&self, cs: &Vec<Folder>, fuel: usize) -> (b: bool)
        ensures
            b == nests_within(self.folders@, cs@, fuel as nat),
        decreases fuel,
    {
        let ghost fs = self.folders@;
        let mut k: usize = 0;
        while k < cs.len()
            invariant
                k <= cs@.len(),
                fs == self.folders@,
                nests_within(fs, cs@.take(k as int), fuel as nat),
            decreases cs@.len() - k,
        {
            proof {
                assert(cs@.take(k + 1).drop_last() =~= cs@.take(k as int));
                assert(cs@.take(k + 1).last() == cs@[k as int]);
            }
            if fuel == 0 {
                proof {
                    lemma_nests_prefix(fs, cs@, k + 1, fuel as nat);
                }
                return false;
            }
            let kids = self.subfolders_of(cs[k].id);
            if !self.check_nesting(&kids, fuel - 1) {
                proof {
                    lemma_nests_prefix(fs, cs@, k + 1, fuel as nat);
                }
                return false;
            }
            k += 1;
        }
        proof {
            assert(cs@.take(cs@.len() as int) =~= cs@);
        }
        true
    }

    /// Whether following subfolders from the root folders ends, so that
    /// [`DirectoryStructure::build_tree`] is defined.
    pub fn nests_finitely(&self) -> (b: bool)
        ensures
            b == nests_within(self.folders@, root_folders(self.folders@), self.folders@.len()),
    {
        let ghost fs = self.folders@;
        let n = self.folders.len();
        let mut roots: Vec<Folder> = Vec::new();
        let mut k: usize = 0;
        while k < n
            invariant
                k <= n,
                n == self.folders@.len(),
                fs == self.folders@,
                roots@ == root_folders(fs.take(k as int)),
            decreases n - k,
        {
            if self.folders[k].parent.is_none() {
                roots.push(copy_folder(&self.folders[k]));
            }
            proof {
                assert(fs.take(k + 1).drop_last() =~= fs.take(k as int));
                assert(roots@ =~= root_folders(fs.take(k + 1)));
            }
            k += 1;
        }
        proof {
            assert(fs.take(n as int) =~= fs);
        }
        self.check_nesting(&roots, n)
    }
}

/// A list of folders nests within `fuel` levels only if each prefix does.
pub proof fn lemma_nests_prefix(fs: Seq<Folder>, cs: Seq<Folder>, k: int, fuel: nat)
    requires
        0 <= k <= cs.len(),
        !nests_within(fs, cs.take(k), fuel),
    ensures
        !nests_within(fs, cs, fuel),
    decreases cs.len() - k,
{
    if k < cs.len() {
        assert(cs.take(k + 1).drop_last() =~= cs.take(k));
        lemma_nests_prefix(fs, cs, k + 1, fuel);
    } else {
        assert(cs.take(k) =~= cs);
    }
}

/// After a note is put in a folder, that is its folder; after it is put at
/// the root, it has none.
pub proof fn law_move_then_get(ms: Seq<NoteMapping>, note: u128, folder: Option<u128>)
    ensures
        note_folder(
            other_notes(ms, note) + match folder {
                Some(f) => seq![NoteMapping { note, folder: f }],
                None => seq![],
            },
            note,
        ) == folder,
{
    lemma_other_notes_absent(ms, note);
    let rest = other_notes(ms, note);
    match folder {
        Some(f) => {
            lemma_note_folder_concat(rest, seq![NoteMapping { note, folder: f }], note);
        },
        None => {
            assert(rest + Seq::<NoteMapping>::empty() =~= rest);
        },
    }
}

/// No mapping of the note is left once its mappings are dropped.
pub proof fn lemma_other_notes_absent(ms: Seq<NoteMapping>, note: u128)
    ensures
        note_folder(other_notes(ms, note), note) is None,
        forall|k: int| 0 <= k < other_notes(ms, note).len() ==> (#[trigger] other_notes(ms, note)[k]).note != note,
    decreases ms.len(),
{
    if ms.len() > 0 {
        lemma_other_notes_absent(ms.drop_last(), note);
        let a = other_notes(ms.drop_last(), note);
        let b = if ms.last().note != note {
            seq![ms.last()]
        } else {
            seq![]
        };
        assert(other_notes(ms, note) == a + b);
        assert forall|k: int| 0 <= k < (a + b).len() implies (#[trigger] (a + b)[k]).note != note by {
            if k >= a.len() {
                assert((a + b)[k] == b[k - a.len()]);
            } else {
                assert((a + b)[k] == a[k]);
            }
        }
        lemma_note_folder_none(a + b, note);
    } else {
        lemma_note_folder_none(other_notes(ms, note), note);
    }
}

pub proof fn lemma_note_folder_none(ms: Seq<NoteMapping>, note: u128)
    requires
        forall|k: int| 0 <= k < ms.len() ==> (#[trigger] ms[k]).note != note,
    ensures
        note_folder(ms, note) is None,
    decreases ms.len(),
{
    if ms.len() > 0 {
        assert(ms[0].note != note);
        assert forall|k: int| 0 <= k < ms.drop_first().len() implies (#[trigger] ms.drop_first()[k]).note != note by {
            assert(ms.drop_first()[k] == ms[k + 1]);
        }
        lemma_note_folder_none(ms.drop_first(), note);
    }
}

pub proof fn lemma_note_folder_concat(a: Seq<NoteMapping>, b: Seq<NoteMapping>, note: u128)
    requires
        note_folder(a, note) is None,
    ensures
        note_folder(a + b, note) == note_folder(b, note),
    decreases a.len(),
{
    if a.len() == 0 {
        assert(a + b =~= b);
    } else {
        assert((a + b).drop_first() =~= a.drop_first() + b);
        assert((a + b)[0] == a[0]);
        lemma_note_folder_concat(a.drop_first(), b, note);
    }
}

/// Once a folder is deleted, no folder has its id and no note is mapped
/// to it; its subfolders have moved to its parent (so, unless it was its
/// own parent, no folder has it as parent).
pub proof fn law_delete_folder(fs: Seq<Folder>, ms: Seq<NoteMapping>, id: u128, parent: Option<u128>)
    ensures
        forall|k: int| 0 <= k < after_delete(fs, id, parent).len() ==> (#[trigger] after_delete(fs, id, parent)[k]).id != id,
        parent != Some(id) ==> forall|k: int| 0 <= k < after_delete(fs, id, parent).len() ==> (#[trigger] after_delete(fs, id, parent)[k]).parent != Some(id),
        forall|k: int| 0 <= k < other_folders_notes(ms, id).len() ==> (#[trigger] other_folders_notes(ms, id)[k]).folder != id,
    decreases fs.len() + ms.len(),
{
    if fs.len() > 0 {
        law_delete_folder(fs.drop_last(), ms, id, parent);
        let a = after_delete(fs.drop_last(), id, parent);
        let f = fs.last();
        let g = if f.parent == Some(id) {
            Folder { parent, ..f }
        } else {
            f
        };
        let b = if f.id != id {
            seq![g]
        } else {
            seq![]
        };
        assert(after_delete(fs, id, parent) == a + b);
        assert forall|k: int| 0 <= k < (a + b).len() implies (#[trigger] (a + b)[k]).id != id by {
            if k >= a.len() {
                assert((a + b)[k] == b[k - a.len()]);
            } else {
                assert((a + b)[k] == a[k]);
            }
        }
        if parent != Some(id) {
            assert forall|k: int| 0 <= k < (a + b).len() implies (#[trigger] (a + b)[k]).parent != Some(id) by {
                if k >= a.len() {
                    assert((a + b)[k] == b[k - a.len()]);
                } else {
                    assert((a + b)[k] == a[k]);
                }
            }
        }
    } else if ms.len() > 0 {
        law_delete_folder(fs, ms.drop_last(), id, parent);
        let a = other_folders_notes(ms.drop_last(), id);
        let b = if ms.last().folder != id {
            seq![ms.last()]
        } else {
            seq![]
        };
        assert(other_folders_notes(ms, id) == a + b);
        assert forall|k: int| 0 <= k < (a + b).len() implies (#[trigger] (a + b)[k]).folder != id by {
            if k >= a.len() {
                assert((a + b)[k] == b[k - a.len()]);
            } else {
                assert((a + b)[k] == a[k]);
            }
        }
    }
}


/// Nesting of a list of folders splits over a concatenation.
pub proof fn lemma_nests_concat(fs: Seq<Folder>, a: Seq<Folder>, b: Seq<Folder>, fuel: nat)
    ensures
        nests_within(fs, a + b, fuel) == (nests_within(fs, a, fuel) && nests_within(fs, b, fuel)),
    decreases b.len(),
{
    if b.len() == 0 {
        assert(a + b =~= a);
    } else {
        assert((a + b).drop_last() =~= a + b.drop_last());
        assert((a + b).last() == b.last());
        lemma_nests_concat(fs, a, b.drop_last(), fuel);
    }
}

/// The subfolders of a folder after one more folder is added.
proof fn lemma_subfolders_push(fs: Seq<Folder>, f: Folder, id: u128)
    ensures
        subfolders(fs.push(f), id) == subfolders(fs, id) + if f.parent == Some(id) {
            seq![f]
        } else {
            seq![]
        },
{
    assert(fs.push(f).drop_last() =~= fs);
}

/// A folder that no folder names as its parent has no subfolders.
proof fn lemma_no_subfolders(fs: Seq<Folder>, id: u128)
    requires
        forall|q: int| 0 <= q < fs.len() ==> fs[q].parent != Some(id),
    ensures
        subfolders(fs, id) == Seq::<Folder>::empty(),
    decreases fs.len(),
{
    if fs.len() > 0 {
        lemma_no_subfolders(fs.drop_last(), id);
    }
}

/// Adding a folder that no folder names as its parent, and that is not its
/// own parent, lets every list that nested within `fuel` levels nest
/// within one more.
proof fn lemma_nests_grow(fs: Seq<Folder>, f: Folder, cs: Seq<Folder>, fuel: nat)
    requires
        forall|q: int| 0 <= q < fs.len() ==> fs[q].parent != Some(f.id),
        f.parent != Some(f.id),
        nests_within(fs, cs, fuel),
    ensures
        nests_within(fs.push(f), cs, fuel + 1),
    decreases fuel, cs.len(),
{
    let g = fs.push(f);
    if cs.len() > 0 {
        lemma_nests_grow(fs, f, cs.drop_last(), fuel);
        let c = cs.last();
        let kids = subfolders(fs, c.id);
        lemma_nests_grow(fs, f, kids, (fuel - 1) as nat);
        lemma_subfolders_push(fs, f, c.id);
        let extra = if f.parent == Some(c.id) {
            seq![f]
        } else {
            seq![]
        };
        lemma_nests_concat(g, kids, extra, fuel);
        if f.parent == Some(c.id) {
            lemma_subfolders_push(fs, f, f.id);
            lemma_no_subfolders(fs, f.id);
            assert(subfolders(g, f.id) =~= Seq::<Folder>::empty());
            assert(seq![f].drop_last() =~= Seq::<Folder>::empty());
            assert(seq![f].last() == f);
            assert(fuel > 0);
            assert(nests_within(g, Seq::<Folder>::empty(), (fuel - 1) as nat));
            assert(nests_within(g, Seq::<Folder>::empty(), fuel));
            assert(nests_within(g, seq![f], fuel));
        } else {
            assert(nests_within(g, extra, fuel));
        }
        assert(nests_within(g, subfolders(g, c.id), fuel));
    }
}

/// Creating a folder that no folder names as its parent, and that is not
/// its own parent, keeps the folders' nesting finite: following subfolders
/// from the root still ends, so the tree can still be built.
pub proof fn law_create_keeps_nesting(fs: Seq<Folder>, f: Folder)
    requires
        nests_within(fs, root_folders(fs), fs.len()),
        forall|q: int| 0 <= q < fs.len() ==> fs[q].parent != Some(f.id),
        f.parent != Some(f.id),
    ensures
        nests_within(fs.push(f), root_folders(fs.push(f)), fs.push(f).len()),
{
    let g = fs.push(f);
    lemma_nests_grow(fs, f, root_folders(fs), fs.len());
    assert(g.drop_last() =~= fs);
    let extra = if f.parent is None {
        seq![f]
    } else {
        seq![]
    };
    assert(root_folders(g) == root_folders(fs) + extra);
    lemma_nests_concat(g, root_folders(fs), extra, g.len());
    if f.parent is None {
        lemma_subfolders_push(fs, f, f.id);
        lemma_no_subfolders(fs, f.id);
        assert(subfolders(g, f.id) =~= Seq::<Folder>::empty());
        assert(seq![f].drop_last() =~= Seq::<Folder>::empty());
        assert(seq![f].last() == f);
        assert(nests_within(g, Seq::<Folder>::empty(), (g.len() - 1) as nat));
        assert(nests_within(g, Seq::<Folder>::empty(), g.len()));
        assert(nests_within(g, seq![f], g.len()));
    } else {
        assert(nests_within(g, extra, g.len()));
    }
}

} // verus!
