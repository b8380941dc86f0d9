use vstd::prelude::*;
use vstd::string::*;

verus! {

/// Identifier of a catalogued file (hex digest of its identity key).
pub type FileId = String;

/// Identifier of an album.
pub type AlbumId = String;

/// Identifier of a shelf.
pub type ShelfId = String;

/// Review flag of a photo.
#[derive(Debug, Clone, Copy, PartialEq, Eq, Structural)]
pub enum Flag {
    Unflagged,
    Pick,
    Reject,
}

/// The storage code of a flag: pick 1, unflagged 0, reject -1.
pub open spec fn flag_code(f: Flag) -> int {
    match f {
        Flag::Unflagged => 0,
        Flag::Pick => 1,
        Flag::Reject => -1,
    }
}

/// The flag that a storage code decodes to: anything but 1 and -1 is unflagged.
pub open spec fn flag_of_code(v: int) -> Flag {
    if v == 1 {
        Flag::Pick
    } else if v == -1 {
        Flag::Reject
    } else {
        Flag::Unflagged
    }
}

impl Flag {
    /// Decodes a storage code; every code other than 1 and -1 reads as unflagged.
    pub fn from_i64(v: i64) -> (f: Flag)
        ensures
            f == flag_of_code(v as int),
    {
        if v == 1 {
            Flag::Pick
        } else if v == -1 {
            Flag::Reject
        } else {
            Flag::Unflagged
        }
    }

    /// The storage code of this flag.
    pub fn code(&self) -> (c: i64)
        ensures
            c as int == flag_code(*self),
    {
        match self {
            Flag::Unflagged => 0,
            Flag::Pick => 1,
            Flag::Reject => -1,
        }
    }
}

/// Decoding the storage code of a flag gives the flag back, and a code that
/// decodes to a flag other than unflagged is that flag's own code.
pub proof fn lemma_flag_code_round_trip(f: Flag, v: int)
    ensures
        flag_of_code(flag_code(f)) == f,
        flag_of_code(v) != Flag::Unflagged ==> flag_code(flag_of_code(v)) == v,
{
}

/// Which flags pass the filter: an OR-combinable inclusion set. Nothing
/// selected and everything selected both mean "no filtering".
#[derive(Debug, Clone, Copy, PartialEq, Eq, Structural)]
pub struct FlagSelection {
    pub pick: bool,
    pub unflagged: bool,
    pub reject: bool,
}

/// Whether the selection lets a file with flag `f` through.
pub open spec fn selection_allows(s: FlagSelection, f: Flag) -> bool {
    match f {
        Flag::Pick => s.pick,
        Flag::Unflagged => s.unflagged,
        Flag::Reject => s.reject,
    }
}

/// How many of the three flags are selected.
pub open spec fn selection_count(s: FlagSelection) -> int {
    (if s.pick { 1int } else { 0int }) + (if s.unflagged { 1int } else { 0int }) + (if s.reject {
        1int
    } else {
        0int
    })
}

/// The selection with the inclusion of `f` inverted.
pub open spec fn selection_toggled(s: FlagSelection, f: Flag) -> FlagSelection {
    match f {
        Flag::Pick => FlagSelection { pick: !s.pick, ..s },
        Flag::Unflagged => FlagSelection { unflagged: !s.unflagged, ..s },
        Flag::Reject => FlagSelection { reject: !s.reject, ..s },
    }
}

/// The storage codes that pass, in the order pick, unflagged, reject.
pub open spec fn selection_codes(s: FlagSelection) -> Seq<i64> {
    (if s.pick { seq![1i64] } else { Seq::empty() }) + (if s.unflagged {
        seq![0i64]
    } else {
        Seq::empty()
    }) + (if s.reject { seq![-1i64] } else { Seq::empty() })
}

impl Default for FlagSelection {
    fn default() -> (s: Self)
        ensures
            !s.pick && !s.unflagged && !s.reject,
    {
        FlagSelection { pick: false, unflagged: false, reject: false }
    }
}

impl FlagSelection {
    fn count(&self) -> (n: usize)
        ensures
            n as int == selection_count(*self),
    {
        let mut n: usize = 0;
        if self.pick {
            n = n + 1;
        }
        if self.unflagged {
            n = n + 1;
        }
        if self.reject {
            n = n + 1;
        }
        n
    }

    /// No effective filter: nothing selected or everything selected.
    pub fn shows_all(&self) -> (b: bool)
        ensures
            b == (selection_count(*self) == 0 || selection_count(*self) == 3),
    {
        let n = self.count();
        n == 0 || n == 3
    }

    /// The selection filters something out.
    pub fn is_active(&self) -> (b: bool)
        ensures
            b == !(selection_count(*self) == 0 || selection_count(*self) == 3),
    {
        !self.shows_all()
    }

    /// Whether a file with flag `flag` passes.
    pub fn allows(&self, flag: Flag) -> (b: bool)
        ensures
            b == selection_allows(*self, flag),
    {
        match flag {
            Flag::Pick => self.pick,
            Flag::Unflagged => self.unflagged,
            Flag::Reject => self.reject,
        }
    }

    /// The selection with `flag`'s inclusion inverted.
    pub fn toggled(self, flag: Flag) -> (s: Self)
        ensures
            s == selection_toggled(self, flag),
    {
        let mut s = self;
        match flag {
            Flag::Pick => s.pick = !s.pick,
            Flag::Unflagged => s.unflagged = !s.unflagged,
            Flag::Reject => s.reject = !s.reject,
        }
        s
    }

    /// Flag values that pass, as their storage codes.
    pub fn allowed_codes(&self) -> (v: Vec<i64>)
        ensures
            v@ == selection_codes(*self),
    {
        let mut v: Vec<i64> = Vec::new();
        if self.pick {
            v.push(1);
        }
        if self.unflagged {
            v.push(0);
        }
        if self.reject {
            v.push(-1);
        }
        proof {
            assert(v@ =~= selection_codes(*self));
        }
        v
    }
}

/// Toggling a flag twice restores the selection; toggling changes whether that
/// flag passes and no other.
pub proof fn lemma_toggle_involution(s: FlagSelection, f: Flag, g: Flag)
    ensures
        selection_toggled(selection_toggled(s, f), f) == s,
        selection_allows(selection_toggled(s, f), g) == (if f == g {
            !selection_allows(s, g)
        } else {
            selection_allows(s, g)
        }),
{
}

/// The allowed codes are exactly the codes of the flags the selection allows,
/// and the selection shows everything exactly when its code list is empty or
/// holds all three codes.
pub proof fn lemma_codes_match_allows(s: FlagSelection, f: Flag)
    ensures
        selection_codes(s).contains(flag_code(f) as i64) == selection_allows(s, f),
        selection_codes(s).len() == selection_count(s),
{
    let c = selection_codes(s);
    if selection_allows(s, f) {
        let k: int = match f {
            Flag::Pick => 0,
            Flag::Unflagged => if s.pick { 1 } else { 0 },
            Flag::Reject => (if s.pick { 1int } else { 0int }) + (if s.unflagged { 1int } else { 0int }),
        };
        assert(c[k] == flag_code(f) as i64);
    }
}

/// Star-rating filter; `Unrated` and `AtMost` treat a missing rating as 0.
#[derive(Debug, Clone, Copy, PartialEq, Eq, Structural)]
pub enum RatingFilter {
    Any,
    Unrated,
    AtLeast(i32),
    Exactly(i32),
    AtMost(i32),
}

impl Default for RatingFilter {
    fn default() -> (r: Self)
        ensures
            r == RatingFilter::Any,
    {
        RatingFilter::Any
    }
}

impl RatingFilter {
    /// Any filter other than `Any` restricts the results.
    pub fn is_active(&self) -> (b: bool)
        ensures
            b == !(*self is Any),
    {
        match self {
            RatingFilter::Any => false,
            _ => true,
        }
    }
}

/// How the include-tags combine: `All` (AND) or `Any` (OR).
#[derive(Debug, Clone, Copy, PartialEq, Eq, Structural)]
pub enum TagMatch {
    All,
    Any,
}

impl Default for TagMatch {
    fn default() -> (t: Self)
        ensures
            t == TagMatch::All,
    {
        TagMatch::All
    }
}

/// The column a result list is sorted by.
#[derive(Debug, Clone, Copy, PartialEq, Eq, Structural)]
pub enum SortField {
    Name,
    Date,
    Size,
    Ext,
}

/// Thumbnail generation state of a file.
#[derive(Debug, Clone, PartialEq)]
pub enum ThumbnailState {
    NotRequested,
    Pending,
    Ready(String),
    Failed(u32),
}

/// A catalog search: every set criterion must hold.
#[derive(Debug, Clone, PartialEq)]
pub struct SearchQuery {
    pub text: Option<String>,
    pub folder_path: Option<String>,
    pub folder_recursive: bool,
    pub tags: Vec<String>,
    pub tag_match: TagMatch,
    pub exclude_tags: Vec<String>,
    pub extensions: Vec<String>,
    pub date_from: Option<i64>,
    pub date_to: Option<i64>,
    pub sort_by: SortField,
    pub sort_asc: bool,
    pub flags: FlagSelection,
    pub rating: RatingFilter,
    pub has_faces: Option<bool>,
    pub has_location: Option<bool>,
    pub person_cluster: Option<String>,
    pub added_within_days: Option<i64>,
    pub camera_model: Option<String>,
    pub color_label: Option<String>,
    pub include_orphaned: bool,
    pub only_deleted: bool,
    pub collapse_bursts: bool,
    pub expanded_bursts: Vec<String>,
    pub import_batch: Option<i64>,
}

/// The query that matches every live file, sorted by name ascending.
pub open spec fn is_default_query(q: SearchQuery) -> bool {
    &&& q.text is None
    &&& q.folder_path is None
    &&& !q.folder_recursive
    &&& q.tags@.len() == 0
    &&& q.tag_match == TagMatch::All
    &&& q.exclude_tags@.len() == 0
    &&& q.extensions@.len() == 0
    &&& q.date_from is None
    &&& q.date_to is None
    &&& q.sort_by == SortField::Name
    &&& q.sort_asc
    &&& !q.flags.pick && !q.flags.unflagged && !q.flags.reject
    &&& q.rating == RatingFilter::Any
    &&& q.has_faces is None
    &&& q.has_location is None
    &&& q.person_cluster is None
    &&& q.added_within_days is None
    &&& q.camera_model is None
    &&& q.color_label is None
    &&& !q.include_orphaned
    &&& !q.only_deleted
    &&& !q.collapse_bursts
    &&& q.expanded_bursts@.len() == 0
    &&& q.import_batch is None
}

impl Default for SearchQuery {
    fn default() -> (q: Self)
        ensures
            is_default_query(q),
    {
        SearchQuery {
            text: None,
            folder_path: None,
            folder_recursive: false,
            tags: Vec::new(),
            tag_match: TagMatch::default(),
            exclude_tags: Vec::new(),
            extensions: Vec::new(),
            date_from: None,
            date_to: None,
            sort_by: SortField::Name,
            sort_asc: true,
            flags: FlagSelection::default(),
            rating: RatingFilter::default(),
            has_faces: None,
            has_location: None,
            person_cluster: None,
            added_within_days: None,
            camera_model: None,
            color_label: None,
            include_orphaned: false,
            only_deleted: false,
            collapse_bursts: false,
            expanded_bursts: Vec::new(),
            import_batch: None,
        }
    }
}

/// One import event: a sync that added files to the catalog.
#[derive(Debug, Clone, PartialEq)]
pub struct ImportBatch {
    pub id: i64,
    pub created_at_unix: i64,
    pub source_folder: Option<String>,
    pub count: usize,
}

/// A manual album or a smart album defined by a saved query.
#[derive(Debug, Clone, PartialEq)]
pub enum AlbumKind {
    Manual,
    Smart(SearchQuery),
}

/// An album, optionally filed under a shelf.
#[derive(Debug, Clone, PartialEq)]
pub struct Album {
    pub id: AlbumId,
    pub name: String,
    pub kind: AlbumKind,
    pub sort_order: i32,
    pub shelf_id: Option<ShelfId>,
}

/// A named container that groups albums.
#[derive(Debug, Clone, PartialEq)]
pub struct Shelf {
    pub id: ShelfId,
    pub name: String,
    pub sort_order: i32,
}

/// A person (face cluster) and how many files show them.
#[derive(Debug, Clone, PartialEq)]
pub struct FaceClusterSummary {
    pub cluster_id: String,
    pub name: Option<String>,
    pub file_count: usize,
}

/// Errors of the catalog and its background work.
#[derive(Debug, Clone, PartialEq)]
pub enum AppError {
    Db(String),
    Sync(String),
    Thumbnail(String, String),
    Watcher(String),
    Metadata(String),
    Extension(String),
}

/// The user-facing message of an error.
pub open spec fn app_error_message(e: AppError) -> Seq<char> {
    match e {
        AppError::Db(s) => "database error: "@ + s@,
        AppError::Sync(s) => "sync error: "@ + s@,
        AppError::Thumbnail(a, b) => "thumbnail error for "@ + a@ + ": "@ + b@,
        AppError::Watcher(s) => "watcher error: "@ + s@,
        AppError::Metadata(s) => "metadata error: "@ + s@,
        AppError::Extension(s) => "extension error: "@ + s@,
    }
}

impl AppError {
    /// The user-facing message of this error.
    pub fn message(&self) -> (m: String)
        ensures
            m@ == app_error_message(*self),
    {
        match self {
            AppError::Db(s) => {
                let mut m = String::from_str("database error: ");
                m.append(s.as_str());
                m
            },
            AppError::Sync(s) => {
                let mut m = String::from_str("sync error: ");
                m.append(s.as_str());
                m
            },
            AppError::Thumbnail(a, b) => {
                let mut m = String::from_str("thumbnail error for ");
                m.append(a.as_str());
                m.append(": ");
                m.append(b.as_str());
                m
            },
            AppError::Watcher(s) => {
                let mut m = String::from_str("watcher error: ");
                m.append(s.as_str());
                m
            },
            AppError::Metadata(s) => {
                let mut m = String::from_str("metadata error: ");
                m.append(s.as_str());
                m
            },
            AppError::Extension(s) => {
                let mut m = String::from_str("extension error: ");
                m.append(s.as_str());
                m
            },
        }
    }
}

} // verus!
