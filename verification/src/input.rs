//! The value types a workspace is described with: file and root identifiers,
//! crate names, editions, environments, plugin descriptors and the per-unit
//! record of a compilation unit.

use vstd::prelude::*;
use vstd::string::*;

use crate::cfg_model::CfgAtomView;
use crate::cfg_model::CfgOptions;
use crate::strings::str_eq;
use crate::strings::str_eq_slice;

verus! {

/// Identifier of a file's content, allocated by the file-loading
/// collaborator; this layer never mints one itself.
#[derive(Debug, Clone, Copy, PartialEq, Eq, Hash, PartialOrd, Ord, Structural)]
pub struct FileId(pub u32);

/// Identifier of a source root: the dense, zero-based position of the root
/// in the list it was installed with.
#[derive(Debug, Clone, Copy, PartialEq, Eq, Hash, PartialOrd, Ord, Structural)]
pub struct SourceRootId(pub u32);

/// Identifier of a compilation unit: its dense position in the graph arena.
#[derive(Debug, Clone, Copy, PartialEq, Eq, Hash, PartialOrd, Ord, Structural)]
pub struct CrateId(pub u32);

impl CrateId {
    /// Translates an identifier held against a graph that was merged into a
    /// larger one, by the amount the merge returned.
    pub fn shift(self, amount: u32) -> (r: CrateId)
        requires
            self.0 + amount <= u32::MAX,
        ensures
            r.0 == self.0 + amount,
    {
        CrateId(self.0 + amount)
    }
}

/// `s` with every dash replaced by an underscore.
pub open spec fn replace_dashes(s: Seq<char>) -> Seq<char> {
    s.map_values(|c: char| if c == '-' { '_' } else { c })
}

/// A name a compilation unit is known under on a dependency edge. Dashes are
/// not valid in such names; see [`CrateName::new`] and
/// [`CrateName::normalize_dashes`].
#[derive(Debug, PartialEq, Eq, Hash)]
pub struct CrateName(String);

impl Clone for CrateName {
    /// An exact copy.
    fn clone(&self) -> (r: Self)
        ensures
            r == *self,
    {
        CrateName(self.0.clone())
    }
}

impl View for CrateName {
    type V = Seq<char>;

    closed spec fn view(&self) -> Seq<char> {
        self.0@
    }
}

impl CrateName {
    /// The name holds no dash.
    pub open spec fn wf(&self) -> bool {
        !self@.contains('-')
    }

    /// Creates a crate name, checking for dashes in the string provided.
    /// Dashes are not allowed in crate names, hence the input string is
    /// returned as `Err` for those cases.
    #[verifier::loop_isolation(false)]
    pub fn new(name: &str) -> (r: Result<CrateName, &str>)
        ensures
            name@.contains('-') ==> (r matches Err(e) && e@ == name@),
            !name@.contains('-') ==> (r matches Ok(c) && c@ == name@ && c.wf()),
    {
        let n = name.unicode_len();
        for i in 0..n
            invariant
                n == name@.len(),
                forall|j: int| 0 <= j < i ==> name@[j] != '-',
        {
            if name.get_char(i) == '-' {
                return Err(name);
            }
        }
        Ok(CrateName(name.to_owned()))
    }

    /// Creates a crate name, unconditionally replacing the dashes with
    /// underscores.
    #[verifier::loop_isolation(false)]
    pub fn normalize_dashes(name: &str) -> (r: CrateName)
        ensures
            r@ == replace_dashes(name@),
            r.wf(),
    {
        let n = name.unicode_len();
        let mut out = String::new();
        for i in 0..n
            invariant
                n == name@.len(),
                out@ == replace_dashes(name@.subrange(0, i as int)),
        {
            let c = name.get_char(i);
            if c == '-' {
                out.append("_");
                proof {
                    reveal_strlit("_");
                }
            } else {
                let piece = name.substring_char(i, i + 1);
                out.append(piece);
            }
            proof {
                let c = if name@[i as int] == '-' { '_' } else { name@[i as int] };
                assert(name@.subrange(i as int, i as int + 1) =~= seq![name@[i as int]]);
                assert(replace_dashes(name@.subrange(0, i as int)).push(c) =~= replace_dashes(
                    name@.subrange(0, i as int),
                ) + seq![c]);
                assert(replace_dashes(name@.subrange(0, i as int + 1)) =~= replace_dashes(
                    name@.subrange(0, i as int),
                ).push(c));
                assert(out@ =~= replace_dashes(name@.subrange(0, i as int + 1)));
            }
        }
        proof {
            assert(name@.subrange(0, n as int) =~= name@);
            assert forall|j: int| 0 <= j < replace_dashes(name@).len() implies replace_dashes(
                name@,
            )[j] != '-' by {
                assert(replace_dashes(name@)[j] == (if name@[j] == '-' { '_' } else { name@[j] }));
            }
        }
        CrateName(out)
    }

    /// The name's characters.
    pub fn as_str(&self) -> (r: &str)
        ensures
            r@ == self@,
    {
        self.0.as_str()
    }
}

/// Mathematical value of a [`CrateDisplayName`].
pub struct CrateDisplayNameView {
    /// The name used to display paths (with `_`).
    pub crate_name: Seq<char>,
    /// The name as the project manifest spells it (possibly with `-`).
    pub canonical_name: Seq<char>,
}

/// A human-readable name of a compilation unit, for display purposes only:
/// analysis identifies units by their identifier and names only the edges.
#[derive(Debug, PartialEq, Eq, Hash)]
pub struct CrateDisplayName {
    crate_name: CrateName,
    canonical_name: String,
}

impl Clone for CrateDisplayName {
    /// An exact copy.
    fn clone(&self) -> (r: Self)
        ensures
            r == *self,
    {
        CrateDisplayName {
            crate_name: self.crate_name.clone(),
            canonical_name: self.canonical_name.clone(),
        }
    }
}

impl View for CrateDisplayName {
    type V = CrateDisplayNameView;

    closed spec fn view(&self) -> CrateDisplayNameView {
        CrateDisplayNameView { crate_name: self.crate_name@, canonical_name: self.canonical_name@ }
    }
}

impl CrateDisplayName {
    /// Takes the manifest spelling and derives the display name by dash
    /// replacement.
    pub fn from_canonical_name(canonical_name: String) -> (r: CrateDisplayName)
        ensures
            r@.crate_name == replace_dashes(canonical_name@),
            r@.canonical_name == canonical_name@,
    {
        let crate_name = CrateName::normalize_dashes(canonical_name.as_str());
        CrateDisplayName { crate_name, canonical_name }
    }

    /// The display form of the name.
    pub fn as_str(&self) -> (r: &str)
        ensures
            r@ == self@.crate_name,
    {
        self.crate_name.as_str()
    }
}

impl From<CrateName> for CrateDisplayName {
    /// A crate name is already a valid display name; it is its own canonical
    /// spelling.
    fn from(crate_name: CrateName) -> (r: CrateDisplayName)
        ensures
            r@.crate_name == crate_name@,
            r@.canonical_name == crate_name@,
    {
        let canonical_name = crate_name.0.clone();
        CrateDisplayName { crate_name, canonical_name }
    }
}

impl vstd::std_specs::convert::FromSpecImpl<CrateName> for CrateDisplayName {
    closed spec fn obeys_from_spec() -> bool {
        true
    }

    closed spec fn from_spec(crate_name: CrateName) -> CrateDisplayName {
        CrateDisplayName { crate_name: crate_name, canonical_name: crate_name.0 }
    }
}

/// The language edition a compilation unit is analyzed under.
#[derive(Debug, Clone, Copy, PartialEq, Eq, PartialOrd, Ord, Hash, Structural)]
pub enum Edition {
    Edition2015,
    Edition2018,
    Edition2021,
}

/// The failure of parsing an edition string: carries the rejected input.
#[derive(Debug, Clone, PartialEq, Eq)]
pub struct ParseEditionError {
    pub invalid_input: String,
}

impl Edition {
    /// The edition assumed when a project declares none.
    pub const CURRENT: Edition = Edition::Edition2018;

    /// Parses the year form of an edition. Exactly the strings `2015`,
    /// `2018` and `2021` are accepted; anything else is returned in the
    /// error.
    pub fn from_str(s: &str) -> (r: Result<Edition, ParseEditionError>)
        ensures
            s@ == "2015"@ ==> (r matches Ok(e) && e == Edition::Edition2015),
            s@ == "2018"@ ==> (r matches Ok(e) && e == Edition::Edition2018),
            s@ == "2021"@ ==> (r matches Ok(e) && e == Edition::Edition2021),
            (s@ != "2015"@ && s@ != "2018"@ && s@ != "2021"@) ==> (r matches Err(pe)
                && pe.invalid_input@ == s@),
    {
        proof {
            reveal_strlit("2015");
            reveal_strlit("2018");
            reveal_strlit("2021");
            assert("2015"@[2] == '1' && "2015"@[3] == '5');
            assert("2018"@[2] == '1' && "2018"@[3] == '8');
            assert("2021"@[2] == '2' && "2021"@[3] == '1');
        }
        let owned: String = s.to_owned();
        if str_eq_slice(&owned, "2015") {
            Ok(Edition::Edition2015)
        } else if str_eq_slice(&owned, "2018") {
            Ok(Edition::Edition2018)
        } else if str_eq_slice(&owned, "2021") {
            Ok(Edition::Edition2021)
        } else {
            Err(ParseEditionError { invalid_input: owned })
        }
    }

    /// The year form of the edition.
    pub fn as_str(&self) -> (r: &str)
        ensures
            *self == Edition::Edition2015 ==> r@ == "2015"@,
            *self == Edition::Edition2018 ==> r@ == "2018"@,
            *self == Edition::Edition2021 ==> r@ == "2021"@,
    {
        match self {
            Edition::Edition2015 => "2015",
            Edition::Edition2018 => "2018",
            Edition::Edition2021 => "2021",
        }
    }
}

/// The pairs of a file-set vector, read as plain values.
pub open spec fn file_pairs(s: Seq<(FileId, String)>) -> Seq<(u32, Seq<char>)> {
    s.map_values(|p: (FileId, String)| (p.0.0, p.1@))
}

/// A bidirectional mapping between file identifiers and the relative paths
/// they carry inside one source root. Paths are meaningful only within
/// their own root.
#[derive(Debug, Clone, PartialEq, Eq)]
pub struct FileSet {
    entries: Vec<(FileId, String)>,
}

impl View for FileSet {
    type V = Map<u32, Seq<char>>;

    closed spec fn view(&self) -> Map<u32, Seq<char>> {
        crate::assoc::assoc_map(file_pairs(self.entries@))
    }
}

impl FileSet {
    /// Each file appears under one path and each path names one file.
    pub closed spec fn wf(&self) -> bool {
        &&& crate::assoc::unique_keys(file_pairs(self.entries@))
        &&& (forall|i: int, j: int|
            0 <= i < j < self.entries@.len() ==> self.entries@[i].1@ != self.entries@[j].1@)
    }

    /// Whether some file of the set carries path `p`.
    pub open spec fn spec_has_path(&self, p: Seq<char>) -> bool {
        exists|f: u32| #[trigger] self@.contains_key(f) && self@[f] == p
    }

    proof fn lemma_entry_facts(&self)
        requires
            self.wf(),
        ensures
            forall|i: int|
                0 <= i < self.entries@.len() ==> #[trigger] self@.contains_key(
                    self.entries@[i].0.0,
                ) && self@[self.entries@[i].0.0] == self.entries@[i].1@,
            forall|f: u32|
                #[trigger] self@.contains_key(f) ==> exists|i: int|
                    0 <= i < self.entries@.len() && self.entries@[i].0.0 == f,
    {
        let pairs = file_pairs(self.entries@);
        assert forall|i: int| 0 <= i < self.entries@.len() implies #[trigger] self@.contains_key(
            self.entries@[i].0.0,
        ) && self@[self.entries@[i].0.0] == self.entries@[i].1@ by {
            crate::assoc::lemma_assoc_map_index(pairs, i);
        }
        assert forall|f: u32| #[trigger] self@.contains_key(f) implies exists|i: int|
            0 <= i < self.entries@.len() && self.entries@[i].0.0 == f by {
            crate::assoc::lemma_assoc_map_contains(pairs, f);
            let i = choose|i: int| 0 <= i < pairs.len() && pairs[i].0 == f;
            assert(self.entries@[i].0.0 == f);
        }
    }

    /// Adds a file under a path. The call succeeds only when neither the
    /// file nor the path is present yet, so the set stays bidirectional;
    /// otherwise the set is unchanged.
    #[verifier::loop_isolation(false)]
    pub fn insert(&mut self, file: FileId, path: String) -> (r: bool)
        requires
            old(self).wf(),
        ensures
            final(self).wf(),
            r == (!old(self)@.contains_key(file.0) && !old(self).spec_has_path(path@)),
            r ==> final(self)@ == old(self)@.insert(file.0, path@),
            !r ==> *final(self) == *old(self),
    {
        proof {
            self.lemma_entry_facts();
        }
        let n = self.entries.len();
        let mut file_present = false;
        let mut path_present = false;
        for i in 0..n
            invariant
                n == self.entries@.len(),
                file_present == (exists|j: int|
                    0 <= j < i && self.entries@[j].0.0 == file.0),
                path_present == (exists|j: int| 0 <= j < i && self.entries@[j].1@ == path@),
        {
            if self.entries[i].0.0 == file.0 {
                file_present = true;
            }
            if str_eq(&self.entries[i].1, &path) {
                path_present = true;
            }
        }
        proof {
            crate::assoc::lemma_assoc_map_contains(file_pairs(self.entries@), file.0);
            if path_present {
                let j = choose|j: int| 0 <= j < n && self.entries@[j].1@ == path@;
                assert(self@.contains_key(self.entries@[j].0.0));
                assert(self.spec_has_path(path@));
            }
            if self.spec_has_path(path@) {
                let f = choose|f: u32| #[trigger] self@.contains_key(f) && self@[f] == path@;
                let i = choose|i: int| 0 <= i < n && self.entries@[i].0.0 == f;
                assert(self.entries@[i].1@ == path@);
            }
        }
        if file_present || path_present {
            return false;
        }
        proof {
            crate::assoc::lemma_assoc_map_push(file_pairs(self.entries@), file.0, path@);
            assert(file_pairs(self.entries@.push((file, path))) =~= file_pairs(
                self.entries@,
            ).push((file.0, path@)));
            let ext = self.entries@.push((file, path));
            assert forall|i: int, j: int| 0 <= i < j < ext.len() implies ext[i].1@ != ext[j].1@ by {
                if j == ext.len() - 1 {
                    assert(self.entries@[i].1@ != path@);
                }
            }
        }
        self.entries.push((file, path));
        true
    }

    /// The path of `file` within this set, if the file is a member.
    #[verifier::loop_isolation(false)]
    pub fn path_for_file(&self, file: &FileId) -> (r: Option<String>)
        requires
            self.wf(),
        ensures
            r is Some <==> self@.contains_key(file.0),
            r matches Some(p) ==> p@ == self@[file.0],
    {
        proof {
            self.lemma_entry_facts();
        }
        let n = self.entries.len();
        for i in 0..n
            invariant
                n == self.entries@.len(),
                forall|j: int| 0 <= j < i ==> self.entries@[j].0.0 != file.0,
        {
            if self.entries[i].0.0 == file.0 {
                return Some(self.entries[i].1.clone());
            }
        }
        proof {
            crate::assoc::lemma_assoc_map_contains(file_pairs(self.entries@), file.0);
        }
        None
    }

    /// The file carrying `path` within this set, if any does.
    #[verifier::loop_isolation(false)]
    pub fn file_for_path(&self, path: &String) -> (r: Option<FileId>)
        requires
            self.wf(),
        ensures
            r is Some <==> self.spec_has_path(path@),
            r matches Some(f) ==> self@.contains_key(f.0) && self@[f.0] == path@,
    {
        proof {
            self.lemma_entry_facts();
        }
        let n = self.entries.len();
        for i in 0..n
            invariant
                n == self.entries@.len(),
                forall|j: int| 0 <= j < i ==> self.entries@[j].1@ != path@,
        {
            if str_eq(&self.entries[i].1, path) {
                proof {
                    assert(self@.contains_key(self.entries@[i as int].0.0));
                }
                return Some(self.entries[i].0);
            }
        }
        proof {
            if self.spec_has_path(path@) {
                let f = choose|f: u32| #[trigger] self@.contains_key(f) && self@[f] == path@;
                let i = choose|i: int|
                    0 <= i < self.entries@.len() && self.entries@[i].0.0 == f;
                assert(self.entries@[i].1@ == path@);
            }
        }
        None
    }

    /// The member files, each exactly once, in no promised order.
    #[verifier::loop_isolation(false)]
    pub fn iter(&self) -> (r: Vec<FileId>)
        requires
            self.wf(),
        ensures
            forall|i: int, j: int| 0 <= i < j < r@.len() ==> r@[i] != r@[j],
            forall|f: FileId| #[trigger] r@.contains(f) <==> self@.contains_key(f.0),
    {
        proof {
            self.lemma_entry_facts();
        }
        let n = self.entries.len();
        let mut r: Vec<FileId> = Vec::new();
        for i in 0..n
            invariant
                n == self.entries@.len(),
                r@.len() == i,
                forall|j: int| 0 <= j < i ==> r@[j] == self.entries@[j].0,
        {
            r.push(self.entries[i].0);
        }
        proof {
            assert forall|i: int, j: int| 0 <= i < j < r@.len() implies r@[i] != r@[j] by {
                assert(file_pairs(self.entries@)[i].0 == self.entries@[i].0.0);
                assert(file_pairs(self.entries@)[j].0 == self.entries@[j].0.0);
                assert(self.entries@[i].0.0 != self.entries@[j].0.0);
            }
            assert forall|f: FileId| #[trigger] r@.contains(f) implies self@.contains_key(f.0) by {
                let i = choose|i: int| 0 <= i < r@.len() && r@[i] == f;
                assert(self@.contains_key(self.entries@[i].0.0));
            }
            assert forall|f: FileId| self@.contains_key(f.0) implies r@.contains(f) by {
                let i = choose|i: int|
                    0 <= i < self.entries@.len() && self.entries@[i].0.0 == f.0;
                assert(r@[i] == f);
            }
        }
        r
    }
}

impl Default for FileSet {
    /// The empty file set.
    fn default() -> (r: FileSet)
        ensures
            r.wf(),
            r@ == Map::<u32, Seq<char>>::empty(),
    {
        let r = FileSet { entries: Vec::new() };
        proof {
            assert(file_pairs(r.entries@) =~= Seq::<(u32, Seq<char>)>::empty());
        }
        r
    }
}

/// Mathematical value of a [`SourceRoot`].
pub struct SourceRootView {
    /// Whether the root holds library code, assumed near-immutable.
    pub is_library: bool,
    /// The member files and their root-relative paths.
    pub files: Map<u32, Seq<char>>,
}

/// Files are grouped into source roots: a directory watched for changes,
/// within which files are addressed by relative paths. A file belongs to
/// exactly one root, and one root's paths mean nothing in another root.
/// Roots are built wholesale by the loader and installed by replacement,
/// never patched.
#[derive(Debug, Clone, PartialEq, Eq)]
pub struct SourceRoot {
    /// Sysroot or package-registry library. Libraries are considered mostly
    /// immutable; the input store uses this to pick a durability hint.
    pub is_library: bool,
    file_set: FileSet,
}

impl View for SourceRoot {
    type V = SourceRootView;

    closed spec fn view(&self) -> SourceRootView {
        SourceRootView { is_library: self.is_library, files: self.file_set@ }
    }
}

impl SourceRoot {
    /// The underlying file set is bidirectional.
    pub closed spec fn wf(&self) -> bool {
        self.file_set.wf()
    }

    /// Whether some member file of the root carries path `p`.
    pub open spec fn spec_has_path(&self, p: Seq<char>) -> bool {
        exists|f: u32| #[trigger] self@.files.contains_key(f) && self@.files[f] == p
    }

    /// Whether the root holds library code.
    pub fn is_library(&self) -> (r: bool)
        ensures
            r == self@.is_library,
    {
        self.is_library
    }

    /// A root of workspace-local code, assumed to change often.
    pub fn new_local(file_set: FileSet) -> (r: SourceRoot)
        requires
            file_set.wf(),
        ensures
            r.wf(),
            r@.is_library == false,
            r@.files == file_set@,
    {
        SourceRoot { is_library: false, file_set }
    }

    /// A root of dependency or sysroot code, assumed near-immutable.
    pub fn new_library(file_set: FileSet) -> (r: SourceRoot)
        requires
            file_set.wf(),
        ensures
            r.wf(),
            r@.is_library == true,
            r@.files == file_set@,
    {
        SourceRoot { is_library: true, file_set }
    }

    /// The path of `file` within this root, if the file is a member.
    pub fn path_for_file(&self, file: &FileId) -> (r: Option<String>)
        requires
            self.wf(),
        ensures
            r is Some <==> self@.files.contains_key(file.0),
            r matches Some(p) ==> p@ == self@.files[file.0],
    {
        self.file_set.path_for_file(file)
    }

    /// The member file carrying `path`, if any does.
    pub fn file_for_path(&self, path: &String) -> (r: Option<FileId>)
        requires
            self.wf(),
        ensures
            r is Some <==> self.spec_has_path(path@),
            r matches Some(f) ==> self@.files.contains_key(f.0) && self@.files[f.0] == path@,
    {
        let r = self.file_set.file_for_path(path);
        proof {
            if self.file_set.spec_has_path(path@) {
                let f = choose|f: u32|
                    #[trigger] self.file_set@.contains_key(f) && self.file_set@[f] == path@;
                assert(self@.files.contains_key(f) && self@.files[f] == path@);
            }
            if self.spec_has_path(path@) {
                let f = choose|f: u32|
                    #[trigger] self@.files.contains_key(f) && self@.files[f] == path@;
                assert(self.file_set@.contains_key(f) && self.file_set@[f] == path@);
            }
        }
        r
    }

    /// The member files, each exactly once, in no promised order.
    pub fn iter(&self) -> (r: Vec<FileId>)
        requires
            self.wf(),
        ensures
            forall|i: int, j: int| 0 <= i < j < r@.len() ==> r@[i] != r@[j],
            forall|f: FileId| #[trigger] r@.contains(f) <==> self@.files.contains_key(f.0),
    {
        self.file_set.iter()
    }
}

/// The pairs of an environment vector, read as plain values.
pub open spec fn env_pairs(s: Seq<(String, String)>) -> Seq<(Seq<char>, Seq<char>)> {
    s.map_values(|p: (String, String)| (p.0@, p.1@))
}

/// The environment a compilation unit is analyzed under: an ordered mapping
/// from variable names to values.
#[derive(Debug, Clone, PartialEq, Eq)]
pub struct Env {
    entries: Vec<(String, String)>,
}

impl View for Env {
    type V = Map<Seq<char>, Seq<char>>;

    closed spec fn view(&self) -> Map<Seq<char>, Seq<char>> {
        crate::assoc::assoc_map(env_pairs(self.entries@))
    }
}

impl Env {
    /// Each variable is stored once.
    pub closed spec fn wf(&self) -> bool {
        crate::assoc::unique_keys(env_pairs(self.entries@))
    }

    proof fn lemma_entry_facts(&self)
        requires
            self.wf(),
        ensures
            forall|i: int|
                0 <= i < self.entries@.len() ==> #[trigger] self@.contains_key(
                    self.entries@[i].0@,
                ) && self@[self.entries@[i].0@] == self.entries@[i].1@,
            forall|k: Seq<char>|
                #[trigger] self@.contains_key(k) ==> exists|i: int|
                    0 <= i < self.entries@.len() && self.entries@[i].0@ == k,
    {
        let pairs = env_pairs(self.entries@);
        assert forall|i: int| 0 <= i < self.entries@.len() implies #[trigger] self@.contains_key(
            self.entries@[i].0@,
        ) && self@[self.entries@[i].0@] == self.entries@[i].1@ by {
            crate::assoc::lemma_assoc_map_index(pairs, i);
        }
        assert forall|k: Seq<char>| #[trigger] self@.contains_key(k) implies exists|i: int|
            0 <= i < self.entries@.len() && self.entries@[i].0@ == k by {
            crate::assoc::lemma_assoc_map_contains(pairs, k);
            let i = choose|i: int| 0 <= i < pairs.len() && pairs[i].0 == k;
            assert(self.entries@[i].0@ == k);
        }
    }

    /// Binds a variable, replacing any earlier binding of the same name.
    #[verifier::loop_isolation(false)]
    pub fn set(&mut self, env: &str, value: String)
        requires
            old(self).wf(),
        ensures
            final(self).wf(),
            final(self)@ == old(self)@.insert(env@, value@),
    {
        proof {
            self.lemma_entry_facts();
        }
        let n = self.entries.len();
        for i in 0..n
            invariant
                old(self) == self,
                n == self.entries@.len(),
                forall|j: int| 0 <= j < i ==> self.entries@[j].0@ != env@,
        {
            if str_eq_slice(&self.entries[i].0, env) {
                proof {
                    crate::assoc::lemma_assoc_map_update(env_pairs(self.entries@), i as int, value@);
                    assert(env_pairs(
                        self.entries@.update(i as int, (self.entries@[i as int].0, value)),
                    ) =~= env_pairs(self.entries@).update(
                        i as int,
                        (self.entries@[i as int].0@, value@),
                    ));
                }
                let key = self.entries[i].0.clone();
                self.entries.set(i, (key, value));
                return ;
            }
        }
        let key: String = env.to_owned();
        proof {
            crate::assoc::lemma_assoc_map_push(env_pairs(self.entries@), env@, value@);
            assert(env_pairs(self.entries@.push((key, value))) =~= env_pairs(
                self.entries@,
            ).push((env@, value@)));
        }
        self.entries.push((key, value));
    }

    /// The value bound to `env`, if any.
    #[verifier::loop_isolation(false)]
    pub fn get(&self, env: &str) -> (r: Option<String>)
        requires
            self.wf(),
        ensures
            r is Some <==> self@.contains_key(env@),
            r matches Some(v) ==> v@ == self@[env@],
    {
        proof {
            self.lemma_entry_facts();
        }
        let n = self.entries.len();
        for i in 0..n
            invariant
                n == self.entries@.len(),
                forall|j: int| 0 <= j < i ==> self.entries@[j].0@ != env@,
        {
            if str_eq_slice(&self.entries[i].0, env) {
                proof {
                    assert(self@.contains_key(self.entries@[i as int].0@));
                }
                return Some(self.entries[i].1.clone());
            }
        }
        proof {
            crate::assoc::lemma_assoc_map_contains(env_pairs(self.entries@), env@);
        }
        None
    }

    /// All bindings, each variable exactly once, in no promised order.
    #[verifier::loop_isolation(false)]
    pub fn iter(&self) -> (r: Vec<(String, String)>)
        requires
            self.wf(),
        ensures
            forall|i: int, j: int| 0 <= i < j < r@.len() ==> r@[i].0@ != r@[j].0@,
            forall|i: int|
                0 <= i < r@.len() ==> #[trigger] self@.contains_key(r@[i].0@) && self@[r@[i].0@]
                    == r@[i].1@,
            forall|k: Seq<char>|
                #[trigger] self@.contains_key(k) ==> exists|i: int|
                    0 <= i < r@.len() && r@[i].0@ == k,
    {
        proof {
            self.lemma_entry_facts();
        }
        let n = self.entries.len();
        let mut r: Vec<(String, String)> = Vec::new();
        for i in 0..n
            invariant
                n == self.entries@.len(),
                r@.len() == i,
                forall|j: int|
                    0 <= j < i ==> r@[j].0@ == self.entries@[j].0@ && r@[j].1@
                        == self.entries@[j].1@,
        {
            let key = self.entries[i].0.clone();
            let value = self.entries[i].1.clone();
            r.push((key, value));
        }
        proof {
            assert forall|k: Seq<char>| #[trigger] self@.contains_key(k) implies exists|i: int|
                0 <= i < r@.len() && r@[i].0@ == k by {
                let i = choose|i: int|
                    0 <= i < self.entries@.len() && self.entries@[i].0@ == k;
                assert(r@[i].0@ == k);
            }
            assert forall|i: int, j: int| 0 <= i < j < r@.len() implies r@[i].0@ != r@[j].0@ by {
                assert(env_pairs(self.entries@)[i].0 == self.entries@[i].0@);
                assert(env_pairs(self.entries@)[j].0 == self.entries@[j].0@);
            }
        }
        r
    }
}

impl Default for Env {
    /// The empty environment.
    fn default() -> (r: Env)
        ensures
            r.wf(),
            r@ == Map::<Seq<char>, Seq<char>>::empty(),
    {
        let r = Env { entries: Vec::new() };
        proof {
            assert(env_pairs(r.entries@) =~= Seq::<(Seq<char>, Seq<char>)>::empty());
        }
        r
    }
}

/// Identifier of an external code-generation plugin.
#[derive(Debug, Clone, Copy, PartialEq, Eq, Hash, Structural)]
pub struct ProcMacroId(pub u32);

/// The kind of an external code-generation plugin.
#[derive(Debug, Clone, Copy, PartialEq, Eq, Hash, Structural)]
pub enum ProcMacroKind {
    CustomDerive,
    FuncLike,
    Attr,
}

/// Mathematical value of a [`ProcMacro`].
pub struct ProcMacroView {
    pub name: Seq<char>,
    pub kind: ProcMacroKind,
}

/// Descriptor of an external code-generation plugin attached to a
/// compilation unit. The invocable capability behind it lives with the
/// host process that expands macros; the input model carries only the
/// plugin's name and kind.
#[derive(Debug, Clone, PartialEq, Eq)]
pub struct ProcMacro {
    pub name: String,
    pub kind: ProcMacroKind,
}

impl View for ProcMacro {
    type V = ProcMacroView;

    open spec fn view(&self) -> ProcMacroView {
        ProcMacroView { name: self.name@, kind: self.kind }
    }
}

/// Mathematical value of a [`Dependency`].
#[verifier::ext_equal]
pub struct DependencyView {
    /// The target unit.
    pub crate_id: int,
    /// The local name the target is known under.
    pub name: Seq<char>,
}

/// One named, directed dependency edge of a compilation unit.
#[derive(Debug, Clone, PartialEq, Eq)]
pub struct Dependency {
    pub crate_id: CrateId,
    pub name: CrateName,
}

impl View for Dependency {
    type V = DependencyView;

    open spec fn view(&self) -> DependencyView {
        DependencyView { crate_id: self.crate_id.0 as int, name: self.name@ }
    }
}

/// The view of an optional display name.
pub open spec fn opt_display_view(o: Option<CrateDisplayName>) -> Option<CrateDisplayNameView> {
    match o {
        Some(dn) => Some(dn@),
        None => None,
    }
}

/// Mathematical value of a [`CrateData`].
#[verifier::ext_equal]
pub struct CrateDataView {
    pub root_file_id: int,
    pub edition: Edition,
    pub display_name: Option<CrateDisplayNameView>,
    pub cfg_options: Set<CfgAtomView>,
    pub potential_cfg_options: Set<CfgAtomView>,
    pub env: Map<Seq<char>, Seq<char>>,
    pub dependencies: Seq<DependencyView>,
    pub proc_macro: Seq<ProcMacroView>,
}

/// Everything the graph records of one compilation unit: its root file, the
/// edition it is analyzed under, an optional display name, its enabled and
/// potential conditional-compilation options, its environment, its named
/// dependency edges and its code-generation plugins.
#[derive(Debug, Clone, PartialEq, Eq)]
pub struct CrateData {
    pub root_file_id: FileId,
    pub edition: Edition,
    /// A name used in the package's project declaration; absent for
    /// synthetic units. For purposes of analysis, units are anonymous: only
    /// the names on [`Dependency`] edges matter. This name is for display.
    pub display_name: Option<CrateDisplayName>,
    pub cfg_options: CfgOptions,
    pub potential_cfg_options: CfgOptions,
    pub env: Env,
    pub dependencies: Vec<Dependency>,
    pub proc_macro: Vec<ProcMacro>,
}

impl View for CrateData {
    type V = CrateDataView;

    open spec fn view(&self) -> CrateDataView {
        CrateDataView {
            root_file_id: self.root_file_id.0 as int,
            edition: self.edition,
            display_name: opt_display_view(self.display_name),
            cfg_options: self.cfg_options@,
            potential_cfg_options: self.potential_cfg_options@,
            env: self.env@,
            dependencies: self.dependencies@.map_values(|d: Dependency| d@),
            proc_macro: self.proc_macro@.map_values(|p: ProcMacro| p@),
        }
    }
}

impl CrateData {
    /// The option sets and the environment are duplicate-free.
    pub open spec fn wf(&self) -> bool {
        &&& self.cfg_options.wf()
        &&& self.potential_cfg_options.wf()
        &&& self.env.wf()
    }
}

} // verus!
