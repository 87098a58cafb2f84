//! Projects, and the directory they and their chats live in.
//!
//! A project is a name, instructions, the tools that are on, a folder on disk,
//! and the chats that belong to it. [`DEFAULT_PROJECT`] is the one that always
//! exists: the chats that belong to no project.
//!
//! [`Store`] is the only thing that turns a slug into a path, so that a slug
//! which could climb out of the data directory is rejected at the one place
//! where it could do harm. It says where things are and what may be done to
//! them; reading and writing the files is left to whoever holds the disk.

use crate::images::{join, joined};
use crate::lists::{free_name, is_free_name, order, order_of, places, ranks, Key, Rank};
use crate::text;
use crate::time::Stamp;
use vstd::prelude::*;
use vstd::slice::slice_subrange;

verus! {

/// The project that always exists: chats that belong to no project.
pub const DEFAULT_PROJECT: &'static str = "default";

/// What the default project is called in the window.
pub const DEFAULT_NAME: &'static str = "Chats";

pub const SCHEMA_VERSION: u32 = 1;

/// The longest a slug may be.
pub const LONGEST_SLUG: usize = 64;

/// Which tools a project offers the model. Coarse on purpose.
#[derive(Debug, Clone, Copy, PartialEq, Eq, Structural)]
pub struct ToolSet {
    /// Over the vault.
    pub memory: bool,
    /// Web search and page fetch.
    pub web: bool,
    /// Reading and, behind approval, writing files under the workspace root.
    pub workspace: bool,
    /// Current conditions, the forecast and any active alerts.
    pub weather: bool,
    /// Acting as the user on repositories other people share.
    pub github: bool,
    /// Making documents, workbooks, decks and PDFs.
    pub documents: bool,
    /// Planner's task list.
    pub planner: bool,
    /// Magpie's transcripts.
    pub magpie: bool,
    /// Writing and running Python in a container.
    pub python: bool,
    /// Asking a stronger model.
    pub escalate: bool,
    /// Reading and organising the user's email.
    pub mail: bool,
    /// Letting a conversation set its own schedule.
    pub scheduling: bool,
    /// Planning a several-step job and working through it.
    pub workflow: bool,
}

/// What is on unless somebody says otherwise: what needs nothing installed and
/// nothing configured.
pub open spec fn usual_tools() -> ToolSet {
    ToolSet {
        memory: true,
        web: true,
        workspace: false,
        weather: true,
        github: false,
        documents: false,
        planner: false,
        magpie: false,
        python: false,
        escalate: false,
        mail: false,
        scheduling: false,
        workflow: true,
    }
}

impl Default for ToolSet {
    fn default() -> (r: Self)
        ensures
            r == usual_tools(),
    {
        ToolSet {
            memory: true,
            web: true,
            weather: true,
            workspace: false,
            github: false,
            documents: false,
            planner: false,
            magpie: false,
            python: false,
            escalate: false,
            mail: false,
            scheduling: false,
            workflow: true,
        }
    }
}

// ---------------------------------------------------------------------------
// Slugs
// ---------------------------------------------------------------------------

/// What of a text in lower case goes into a slug, before the dashes at its ends
/// are taken off: letters and digits, and one dash for whatever is between them.
pub open spec fn dashed(lower: Seq<char>) -> Seq<char>
    decreases lower.len(),
{
    if lower.len() == 0 {
        Seq::empty()
    } else {
        let before = dashed(lower.drop_last());
        if text::is_ascii_alphanumeric(lower.last()) {
            before.push(lower.last())
        } else if before.len() > 0 && before.last() == '-' {
            before
        } else {
            before.push('-')
        }
    }
}

/// A text without the dashes in front of it.
pub open spec fn undashed_front(s: Seq<char>) -> Seq<char>
    decreases s.len(),
{
    if s.len() > 0 && s[0] == '-' {
        undashed_front(s.skip(1))
    } else {
        s
    }
}

/// The slug of a text in lower case.
pub open spec fn slug_from(lower: Seq<char>) -> Seq<char> {
    text::without_trailing(undashed_front(dashed(lower)), '-')
}

/// The slug of a name.
pub open spec fn slug(name: Seq<char>) -> Seq<char> {
    slug_from(text::lowercase(text::trim(name)))
}

/// The slug of a text in lower case.
pub fn slug_of(lower: &str) -> (r: String)
    ensures
        r@ == slug_from(lower@),
{
    let chars = text::chars_of(lower);
    let mut out: Vec<char> = Vec::new();
    let mut i: usize = 0;
    assert(out@ =~= dashed(lower@.take(0)));
    while i < chars.len()
        invariant
            0 <= i <= chars.len(),
            chars@ == lower@,
            out@ == dashed(lower@.take(i as int)),
        decreases chars.len() - i,
    {
        let c = chars[i];
        assert(lower@.take(i + 1).drop_last() =~= lower@.take(i as int));
        assert(lower@.take(i + 1).last() == c);
        if ('0' <= c && c <= '9') || ('A' <= c && c <= 'Z') || ('a' <= c && c <= 'z') {
            out.push(c);
        } else if out.len() == 0 || out[out.len() - 1] != '-' {
            out.push('-');
        }
        i = i + 1;
    }
    assert(lower@.take(lower@.len() as int) =~= lower@);
    let mut rest = out.as_slice();
    while rest.len() > 0 && rest[0] == '-'
        invariant
            undashed_front(out@) == undashed_front(rest@),
        decreases rest.len(),
    {
        let ghost before = rest@;
        rest = slice_subrange(rest, 1, rest.len());
        assert(rest@ =~= before.skip(1));
    }
    text::string_of(text::trailing_off(rest, '-'))
}

/// Lower case, words joined by dashes, and nothing that means anything to a
/// filesystem.
///
/// Whatever the name, the slug is made of small letters, digits and single dashes
/// between them; so it is safe where there is anything of it and it is not too
/// long. The slug of a slug is itself.
pub fn slugify(name: &str) -> (r: String)
    ensures
        r@ == slug(name@),
        0 < r@.len() <= LONGEST_SLUG ==> is_safe_slug(r@),
        forall|i: int| 0 <= i < r@.len() ==> is_slug_char(#[trigger] r@[i]),
        forall|i: int, j: int|
            0 <= i && j == i + 1 && j < r@.len() && #[trigger] r@[i] == '-' ==> #[trigger] r@[j]
                != '-',
        slug(r@) == r@,
{
    let chars = text::chars_of(name);
    let trimmed = text::string_of(text::trimmed(chars.as_slice()));
    let lowered = trimmed.as_str().to_lowercase();
    proof {
        slugs_are_safe(lowered@);
        slugs_stay_as_they_are(lowered@);
    }
    slug_of(lowered.as_str())
}

/// The characters of a slug.
pub open spec fn is_slug_char(c: char) -> bool {
    ('a' <= c && c <= 'z') || ('0' <= c && c <= '9') || c == '-'
}

/// A slug that can only ever name a directory directly under the projects.
pub open spec fn is_safe_slug(s: Seq<char>) -> bool {
    &&& 0 < s.len() <= LONGEST_SLUG
    &&& forall|i: int| 0 <= i < s.len() ==> is_slug_char(#[trigger] s[i])
    &&& s[0] != '-'
    &&& s.last() != '-'
}

pub fn safe_slug(s: &str) -> (r: Option<String>)
    ensures
        r is Some <==> is_safe_slug(s@),
        r is Some ==> (r->0)@ == s@,
{
    let chars = text::chars_of(s);
    if chars.len() == 0 || chars.len() > LONGEST_SLUG {
        return None;
    }
    let mut i: usize = 0;
    while i < chars.len()
        invariant
            0 <= i <= chars.len(),
            chars@ == s@,
            forall|j: int| 0 <= j < i ==> is_slug_char(#[trigger] s@[j]),
        decreases chars.len() - i,
    {
        let c = chars[i];
        if !(('a' <= c && c <= 'z') || ('0' <= c && c <= '9') || c == '-') {
            assert(!is_slug_char(s@[i as int]));
            return None;
        }
        i = i + 1;
    }
    if chars[0] == '-' || chars[chars.len() - 1] == '-' {
        return None;
    }
    Some(s.to_owned())
}

proof fn lemma_dashed(lower: Seq<char>)
    ensures
        forall|i: int|
            0 <= i < dashed(lower).len() ==> text::is_ascii_alphanumeric(
                #[trigger] dashed(lower)[i],
            ) || dashed(lower)[i] == '-',
        (forall|i: int| 0 <= i < lower.len() ==> !('A' <= #[trigger] lower[i] && lower[i] <= 'Z'))
            ==> forall|i: int|
            0 <= i < dashed(lower).len() ==> is_slug_char(#[trigger] dashed(lower)[i]),
        forall|i: int, j: int|
            0 <= i && j == i + 1 && j < dashed(lower).len() && #[trigger] dashed(lower)[i] == '-'
                ==> #[trigger] dashed(lower)[j] != '-',
    decreases lower.len(),
{
    if lower.len() > 0 {
        let rest = lower.drop_last();
        lemma_dashed(rest);
        let before = dashed(rest);
        let all = dashed(lower);
        if forall|i: int| 0 <= i < lower.len() ==> !('A' <= #[trigger] lower[i] && lower[i] <= 'Z') {
            assert forall|i: int| 0 <= i < rest.len() implies !('A' <= #[trigger] rest[i]
                && rest[i] <= 'Z') by {
                assert(rest[i] == lower[i]);
            }
            assert forall|i: int| 0 <= i < all.len() implies is_slug_char(#[trigger] all[i]) by {
                if i < before.len() {
                    assert(all[i] == before[i]);
                } else {
                    assert(lower[lower.len() - 1] == lower.last());
                }
            }
        }
        assert forall|i: int, j: int|
            0 <= i && j == i + 1 && j < all.len() && #[trigger] all[i]
                == '-' implies #[trigger] all[j] != '-' by {
            assert(all[i] == before[i]);
            if j < before.len() {
                assert(all[j] == before[j]);
            }
        }
    }
}

proof fn lemma_undashed_front(s: Seq<char>)
    ensures
        undashed_front(s).len() <= s.len(),
        undashed_front(s) == s.skip(s.len() - undashed_front(s).len()),
        undashed_front(s).len() > 0 ==> undashed_front(s)[0] != '-',
    decreases s.len(),
{
    if s.len() > 0 && s[0] == '-' {
        lemma_undashed_front(s.skip(1));
        assert(undashed_front(s) =~= s.skip(s.len() - undashed_front(s).len()));
    } else {
        assert(s.skip(0) =~= s);
    }
}

/// A slug begins and ends with a letter or a digit, has no two dashes in a row,
/// and has nothing else in it: where it is not empty and not too long, it is
/// safe.
pub proof fn slugs_are_safe(lower: Seq<char>)
    requires
        forall|i: int| 0 <= i < lower.len() ==> !('A' <= #[trigger] lower[i] && lower[i] <= 'Z'),
    ensures
        0 < slug_from(lower).len() <= LONGEST_SLUG ==> is_safe_slug(slug_from(lower)),
        forall|i: int| 0 <= i < slug_from(lower).len() ==> is_slug_char(#[trigger] slug_from(lower)[i]),
        forall|i: int, j: int|
            0 <= i && j == i + 1 && j < slug_from(lower).len() && #[trigger] slug_from(lower)[i]
                == '-' ==> #[trigger] slug_from(lower)[j] != '-',
        slug_from(lower).len() > 0 ==> slug_from(lower)[0] != '-' && slug_from(lower).last() != '-',
{
    lemma_dashed(lower);
    let d = dashed(lower);
    let f = undashed_front(d);
    lemma_undashed_front(d);
    text::lemma_without_trailing(f, '-');
    let s = slug_from(lower);
    let k = d.len() - f.len();
    assert forall|i: int| 0 <= i < s.len() implies is_slug_char(#[trigger] s[i]) by {
        assert(s[i] == f[i] && f[i] == d[k + i]);
    }
    assert forall|i: int, j: int|
        0 <= i && j == i + 1 && j < s.len() && #[trigger] s[i] == '-' implies #[trigger] s[j]
            != '-' by {
        assert(s[i] == d[k + i] && s[j] == d[k + j]);
    }
    if s.len() > 0 {
        assert(s[0] == f[0]);
    }
}

proof fn lemma_dashed_again(s: Seq<char>)
    requires
        forall|i: int| 0 <= i < s.len() ==> is_slug_char(#[trigger] s[i]),
        forall|i: int, j: int|
            0 <= i && j == i + 1 && j < s.len() && #[trigger] s[i] == '-' ==> #[trigger] s[j] != '-',
    ensures
        dashed(s) == s,
    decreases s.len(),
{
    if s.len() > 0 {
        let rest = s.drop_last();
        assert forall|i: int| 0 <= i < rest.len() implies is_slug_char(#[trigger] rest[i]) by {
            assert(rest[i] == s[i]);
        }
        assert forall|i: int, j: int|
            0 <= i && j == i + 1 && j < rest.len() && #[trigger] rest[i]
                == '-' implies #[trigger] rest[j] != '-' by {
            assert(rest[i] == s[i] && rest[j] == s[j]);
        }
        lemma_dashed_again(rest);
        assert(is_slug_char(s[s.len() - 1]));
        if s.last() == '-' && rest.len() > 0 {
            assert(rest.last() == s[s.len() - 2]);
            assert(s[s.len() - 2] == '-' ==> s[s.len() - 1] != '-');
        }
        assert(rest.push(s.last()) =~= s);
    } else {
        assert(dashed(s) =~= s);
    }
}

/// The slug of a slug is itself: what was named once is found again by its slug.
pub proof fn slugs_stay_as_they_are(lower: Seq<char>)
    requires
        forall|i: int| 0 <= i < lower.len() ==> !('A' <= #[trigger] lower[i] && lower[i] <= 'Z'),
    ensures
        slug(slug_from(lower)) == slug_from(lower),
{
    slugs_are_safe(lower);
    let s = slug_from(lower);
    assert forall|i: int| 0 <= i < s.len() implies !text::is_space(#[trigger] s[i]) by {
        assert(is_slug_char(s[i]));
    }
    text::lemma_trim_unchanged(s);
    assert(text::lowercase(s) =~= s) by {
        assert forall|i: int| 0 <= i < s.len() implies '\0' <= #[trigger] s[i] && s[i]
            <= '\u{7f}' by {
            assert(is_slug_char(s[i]));
        }
        assert forall|i: int| 0 <= i < s.len() implies text::ascii_lower(#[trigger] s[i])
            == s[i] by {
            assert(is_slug_char(s[i]));
        }
        assert(text::ascii_lowercase(s) =~= s);
    }
    lemma_dashed_again(s);
    assert(undashed_front(s) == s);
    text::lemma_without_trailing(s, '-');
    if s.len() > 0 {
        assert(text::without_trailing(s, '-') == s);
    }
}

/// A safe slug names no other directory: there is no separator in it, and no
/// step up.
pub proof fn safe_slugs_stay_put(s: Seq<char>)
    requires
        is_safe_slug(s),
    ensures
        !s.contains('/'),
        !s.contains('\\'),
        !s.contains('.'),
{
    assert forall|i: int| 0 <= i < s.len() implies s[i] != '/' && s[i] != '\\' && s[i] != '.' by {
        assert(is_slug_char(s[i]));
    }
}

// ---------------------------------------------------------------------------
// Projects
// ---------------------------------------------------------------------------

#[derive(Debug, Clone, PartialEq, Eq)]
pub struct Project {
    pub version: u32,
    pub slug: String,
    pub name: String,
    /// Added to the assistant's built-in instructions for every chat here, and
    /// never in place of them.
    pub instructions: Option<String>,
    pub tools: ToolSet,
    /// The folder on disk.
    pub workspace: Option<String>,
    /// Named only when something in front of the server routes by model.
    pub model: Option<String>,
}

impl Project {
    /// A project that nobody has changed anything about.
    pub open spec fn fresh(self, slug_text: Seq<char>, name_text: Seq<char>) -> bool {
        &&& self.version == SCHEMA_VERSION
        &&& self.slug@ == slug_text
        &&& self.name@ == name_text
        &&& self.instructions is None
        &&& self.tools == usual_tools()
        &&& self.workspace is None
        &&& self.model is None
    }

    /// Chats that belong to no project.
    pub fn default_project() -> (r: Self)
        ensures
            r.fresh(DEFAULT_PROJECT@, DEFAULT_NAME@),
    {
        Project {
            version: SCHEMA_VERSION,
            slug: DEFAULT_PROJECT.to_owned(),
            name: DEFAULT_NAME.to_owned(),
            instructions: None,
            tools: ToolSet::default(),
            workspace: None,
            model: None,
        }
    }

    pub fn named(name: &str) -> (r: Self)
        ensures
            r.fresh(slug(name@), text::trim(name@)),
    {
        let chars = text::chars_of(name);
        Project {
            version: SCHEMA_VERSION,
            slug: slugify(name),
            name: text::string_of(text::trimmed(chars.as_slice())),
            instructions: None,
            tools: ToolSet::default(),
            workspace: None,
            model: None,
        }
    }

    pub fn is_default(&self) -> (r: bool)
        ensures
            r == (self.slug@ == DEFAULT_PROJECT@),
    {
        text::same(self.slug.as_str(), DEFAULT_PROJECT)
    }
}

#[derive(Debug, Clone, PartialEq, Eq)]
pub enum StoreError {
    Io { path: String, source: String },
    Unreadable { path: String, detail: String },
    Thread(String),
    /// A name that slugified to nothing, or a slug that could climb out of the
    /// data directory.
    BadName(String),
    /// The default project, which is not deletable.
    Protected(String),
}

impl StoreError {
    /// The error in words.
    pub fn describe(&self) -> (r: String)
        ensures
            r@ == match self {
                StoreError::Io { path, source } => path@ + ": "@ + source@,
                StoreError::Unreadable { path, detail } => path@ + ": "@ + detail@,
                StoreError::Thread(source) => source@,
                StoreError::BadName(name) => text::quoted(name@) + " is not a usable name"@,
                StoreError::Protected(name) => name@ + " cannot be deleted"@,
            },
    {
        match self {
            StoreError::Io { path, source } => {
                let mut r = path.as_str().to_owned();
                r.append(": ");
                r.append(source.as_str());
                r
            },
            StoreError::Unreadable { path, detail } => {
                let mut r = path.as_str().to_owned();
                r.append(": ");
                r.append(detail.as_str());
                r
            },
            StoreError::Thread(source) => source.as_str().to_owned(),
            StoreError::BadName(name) => {
                let mut r = text::quote(name.as_str());
                r.append(" is not a usable name");
                r
            },
            StoreError::Protected(name) => {
                let mut r = name.as_str().to_owned();
                r.append(" cannot be deleted");
                r
            },
        }
    }
}

/// Enough of a chat to draw a sidebar row without opening it twice.
#[derive(Debug, Clone, PartialEq, Eq)]
pub struct ThreadSummary {
    pub id: String,
    pub title: String,
    pub updated: Stamp,
    pub turns: usize,
}

/// One exchange of a chat.
#[derive(Debug, Clone, PartialEq, Eq)]
pub struct Turn {
    pub user: String,
    /// What was thought before the answer, which is no part of what was said.
    pub thinking: String,
    pub answer: String,
}

/// A chat as the night reads it: when it last changed, and what was said, where
/// it could be read.
#[derive(Debug, Clone, PartialEq, Eq)]
pub struct Conversation {
    pub updated: Stamp,
    pub turns: Option<Vec<Turn>>,
}

// ---------------------------------------------------------------------------
// The store
// ---------------------------------------------------------------------------

/// Where projects and their chats are on disk. Nothing else builds a path under
/// the data directory.
#[derive(Debug, Clone, PartialEq, Eq)]
pub struct Store {
    pub root: String,
}

impl Store {
    /// Where a project is.
    pub open spec fn project_path(self, slug_text: Seq<char>) -> Seq<char> {
        joined(joined(self.root@, "projects"@), slug_text)
    }

    pub fn new(root: &str) -> (r: Self)
        ensures
            r.root@ == root@,
    {
        Store { root: root.to_owned() }
    }

    pub fn root(&self) -> (r: &str)
        ensures
            r@ == self.root@,
    {
        self.root.as_str()
    }

    /// The one file of jobs for the whole machine.
    pub fn jobs_path(&self) -> (r: String)
        ensures
            r@ == joined(self.root@, "jobs.json"@),
    {
        join(self.root.as_str(), "jobs.json")
    }

    /// A slug that may become a path.
    pub fn checked(&self, slug: &str) -> (r: Result<String, StoreError>)
        ensures
            r is Ok <==> is_safe_slug(slug@),
            r is Ok ==> (r->Ok_0)@ == slug@,
            r is Err ==> r->Err_0 is BadName && (r->Err_0->BadName_0)@ == slug@,
    {
        match safe_slug(slug) {
            Some(s) => Ok(s),
            None => Err(StoreError::BadName(slug.to_owned())),
        }
    }

    /// Where a project is.
    pub fn project_directory(&self, slug: &str) -> (r: Result<String, StoreError>)
        ensures
            r is Ok <==> is_safe_slug(slug@),
            r is Ok ==> (r->Ok_0)@ == self.project_path(slug@),
            r is Err ==> r->Err_0 is BadName && (r->Err_0->BadName_0)@ == slug@,
    {
        match self.checked(slug) {
            Ok(s) => {
                let projects = join(self.root.as_str(), "projects");
                Ok(join(projects.as_str(), s.as_str()))
            },
            Err(error) => Err(error),
        }
    }

    /// Where a project's saved workflows are.
    pub fn workflow_directory(&self, slug: &str) -> (r: Result<String, StoreError>)
        ensures
            r is Ok <==> is_safe_slug(slug@),
            r is Ok ==> (r->Ok_0)@ == joined(self.project_path(slug@), "workflows"@),
            r is Err ==> r->Err_0 is BadName && (r->Err_0->BadName_0)@ == slug@,
    {
        match self.project_directory(slug) {
            Ok(directory) => Ok(join(directory.as_str(), "workflows")),
            Err(error) => Err(error),
        }
    }

    /// Where a chat is.
    pub fn thread_path(&self, slug: &str, id: &str) -> (r: Result<String, StoreError>)
        ensures
            r is Ok <==> is_safe_slug(slug@),
            r is Ok ==> (r->Ok_0)@ == joined(
                joined(self.project_path(slug@), "threads"@),
                id@ + ".json"@,
            ),
            r is Err ==> r->Err_0 is BadName && (r->Err_0->BadName_0)@ == slug@,
    {
        match self.project_directory(slug) {
            Ok(directory) => {
                let threads = join(directory.as_str(), "threads");
                let mut name = id.to_owned();
                name.append(".json");
                Ok(join(threads.as_str(), name.as_str()))
            },
            Err(error) => Err(error),
        }
    }

    /// A project under a name nobody has used. Two "Planning"s would otherwise
    /// be one directory. `taken` is the slugs of the projects that there are.
    pub fn create_project(&self, name: &str, taken: &Vec<String>) -> (r: Result<
        Project,
        StoreError,
    >)
        ensures
            slug(name@).len() == 0 ==> r is Err && r->Err_0 is BadName && (r->Err_0->BadName_0)@
                == name@,
            slug(name@).len() > 0 ==> exists|free: Seq<char>|
                #[trigger] is_free_name(slug(name@), text::texts(taken@), free) && match r {
                    Ok(project) => is_safe_slug(free) && project.fresh(free, text::trim(name@)),
                    Err(error) => !is_safe_slug(free) && error is BadName && (error->BadName_0)@
                        == free,
                },
    {
        let mut project = Project::named(name);
        if text::chars_of(project.slug.as_str()).len() == 0 {
            return Err(StoreError::BadName(name.to_owned()));
        }
        let free = free_name(project.slug.as_str(), taken);
        assert(is_free_name(slug(name@), text::texts(taken@), free@));
        match self.checked(free.as_str()) {
            Ok(safe) => {
                project.slug = safe;
                assert(project.fresh(free@, text::trim(name@)));
                Ok(project)
            },
            Err(error) => Err(error),
        }
    }

    /// A project, given what its settings file said, if it could be read.
    pub fn load_project(&self, slug: &str, settings: Option<Project>) -> (r: Result<
        Project,
        StoreError,
    >)
        ensures
            r is Ok <==> is_safe_slug(slug@),
            r is Ok ==> opens_as(slug@, settings, r->Ok_0),
            r is Err ==> r->Err_0 is BadName && (r->Err_0->BadName_0)@ == slug@,
    {
        match self.checked(slug) {
            Ok(safe) => Ok(opened(safe.as_str(), settings)),
            Err(error) => Err(error),
        }
    }

    /// The id of a new chat: one that no file in the project is using. `base` is
    /// the one from the clock, which two chats may share.
    pub fn new_thread(&self, slug: &str, base: &str, taken: &Vec<String>) -> (r: Result<
        String,
        StoreError,
    >)
        ensures
            r is Ok <==> is_safe_slug(slug@),
            r is Ok ==> is_free_name(base@, text::texts(taken@), (r->Ok_0)@),
            r is Err ==> r->Err_0 is BadName && (r->Err_0->BadName_0)@ == slug@,
    {
        match self.checked(slug) {
            Ok(_) => Ok(free_name(base, taken)),
            Err(error) => Err(error),
        }
    }

    /// Where a chat is written, if it is: an empty one is not, so that opening
    /// and closing a window leaves nothing behind.
    pub fn save_thread(&self, slug: &str, id: &str, empty: bool) -> (r: Result<
        Option<String>,
        StoreError,
    >)
        ensures
            empty ==> r is Ok && r->Ok_0 is None,
            !empty ==> (r is Ok <==> is_safe_slug(slug@)),
            !empty && r is Ok ==> r->Ok_0 is Some && (r->Ok_0->0)@ == joined(
                joined(self.project_path(slug@), "threads"@),
                id@ + ".json"@,
            ),
            r is Err ==> r->Err_0 is BadName && (r->Err_0->BadName_0)@ == slug@,
    {
        if empty {
            return Ok(None);
        }
        match self.thread_path(slug, id) {
            Ok(path) => Ok(Some(path)),
            Err(error) => Err(error),
        }
    }

    /// Which directory goes when a project is deleted. The default project is
    /// not deletable: there has to be somewhere to talk.
    pub fn delete_project(&self, slug: &str) -> (r: Result<String, StoreError>)
        ensures
            !is_safe_slug(slug@) ==> r is Err && r->Err_0 is BadName && (r->Err_0->BadName_0)@
                == slug@,
            is_safe_slug(slug@) && slug@ == DEFAULT_PROJECT@ ==> r is Err
                && r->Err_0 is Protected && (r->Err_0->Protected_0)@ == slug@,
            is_safe_slug(slug@) && slug@ != DEFAULT_PROJECT@ ==> r is Ok && (r->Ok_0)@
                == self.project_path(slug@),
    {
        match self.project_directory(slug) {
            Ok(directory) => {
                if text::same(slug, DEFAULT_PROJECT) {
                    Err(StoreError::Protected(slug.to_owned()))
                } else {
                    Ok(directory)
                }
            },
            Err(error) => Err(error),
        }
    }

    /// The name a workflow is filed under, and where.
    pub fn save_workflow(&self, slug_text: &str, goal: &str) -> (r: Result<
        (String, String),
        StoreError,
    >)
        ensures
            !is_safe_slug(slug_text@) ==> r is Err && r->Err_0 is BadName
                && (r->Err_0->BadName_0)@ == slug_text@,
            is_safe_slug(slug_text@) ==> (r is Ok <==> 0 < slug(goal@).len() <= LONGEST_SLUG),
            is_safe_slug(slug_text@) && r is Err ==> r->Err_0 is BadName
                && (r->Err_0->BadName_0)@ == goal@,
            r is Ok ==> (r->Ok_0).0@ == slug(goal@) && (r->Ok_0).1@ == joined(
                joined(self.project_path(slug_text@), "workflows"@),
                slug(goal@) + ".md"@,
            ),
    {
        match self.workflow_directory(slug_text) {
            Ok(directory) => {
                let name = slugify(goal);
                let length: usize = text::chars_of(name.as_str()).len();
                if length == 0 || length > LONGEST_SLUG {
                    return Err(StoreError::BadName(goal.to_owned()));
                }
                let mut file = name.as_str().to_owned();
                file.append(".md");
                let path = join(directory.as_str(), file.as_str());
                Ok((name, path))
            },
            Err(error) => Err(error),
        }
    }

    /// Where a saved workflow is that is to be deleted.
    pub fn delete_workflow(&self, slug_text: &str, name: &str) -> (r: Result<String, StoreError>)
        ensures
            !is_safe_slug(slug_text@) ==> r is Err && r->Err_0 is BadName
                && (r->Err_0->BadName_0)@ == slug_text@,
            is_safe_slug(slug_text@) ==> (r is Ok <==> slug(name@).len() > 0),
            is_safe_slug(slug_text@) && r is Err ==> r->Err_0 is BadName
                && (r->Err_0->BadName_0)@ == slug(name@),
            r is Ok ==> (r->Ok_0)@ == joined(
                joined(self.project_path(slug_text@), "workflows"@),
                slug(name@) + ".md"@,
            ),
    {
        match self.workflow_directory(slug_text) {
            Ok(directory) => {
                let mut file = slugify(name);
                if text::chars_of(file.as_str()).len() == 0 {
                    return Err(StoreError::BadName(file));
                }
                file.append(".md");
                Ok(join(directory.as_str(), file.as_str()))
            },
            Err(error) => Err(error),
        }
    }

    /// The renames that bring an older layout to this one, in order: each is done
    /// where the old name exists and the new one does not, so that doing them
    /// twice does nothing.
    pub fn migrations(&self) -> (r: Vec<(String, String)>)
        ensures
            crate::memory::pairs(r@) == seq![
                (joined(self.root@, "contexts"@), joined(self.root@, "projects"@)),
                (
                    joined(joined(self.root@, "projects"@), "main-line"@),
                    joined(joined(self.root@, "projects"@), DEFAULT_PROJECT@),
                ),
            ],
    {
        let projects = join(self.root.as_str(), "projects");
        let old_line = join(projects.as_str(), "main-line");
        let new_line = join(projects.as_str(), DEFAULT_PROJECT);
        let contexts = join(self.root.as_str(), "contexts");
        let mut r: Vec<(String, String)> = Vec::new();
        r.push((contexts, projects));
        r.push((old_line, new_line));
        assert(crate::memory::pairs(r@) =~= seq![
            (joined(self.root@, "contexts"@), joined(self.root@, "projects"@)),
            (
                joined(joined(self.root@, "projects"@), "main-line"@),
                joined(joined(self.root@, "projects"@), DEFAULT_PROJECT@),
            ),
        ]);
        r
    }
}

/// Whatever path the store builds for a project is directly under the projects:
/// its last part is the slug, and there is no separator in that.
pub proof fn projects_stay_in_their_directory(store: Store, slug_text: Seq<char>)
    requires
        is_safe_slug(slug_text),
    ensures
        ({
            let parent = joined(store.root@, "projects"@);
            let path = store.project_path(slug_text);
            &&& text::starts(path, parent)
            &&& text::ends(path, slug_text)
            &&& path.len() <= parent.len() + 1 + slug_text.len()
            &&& !slug_text.contains('/') && !slug_text.contains('.')
        }),
{
    reveal_strlit("/");
    safe_slugs_stay_put(slug_text);
    let parent = joined(store.root@, "projects"@);
    let path = store.project_path(slug_text);
    assert(path.take(parent.len() as int) =~= parent);
    assert(path.skip(path.len() - slug_text.len()) =~= slug_text);
}

/// Where a file is written before it is put in its place.
pub fn temporary_path(path: &str) -> (r: String)
    ensures
        r@ == path@ + ".tmp"@,
{
    let mut r = path.to_owned();
    r.append(".tmp");
    r
}

/// How a project opens, given what its settings file said, if it could be read.
/// The directory's name is the identity, and the default project has no name of
/// its own. A project whose settings were lost opens with defaults.
pub open spec fn opens_as(slug: Seq<char>, settings: Option<Project>, r: Project) -> bool {
    &&& r.slug@ == slug
    &&& match settings {
        Some(p) => {
            &&& r.name@ == if slug == DEFAULT_PROJECT@ {
                DEFAULT_NAME@
            } else {
                p.name@
            }
            &&& r.version == p.version
            &&& r.instructions == p.instructions
            &&& r.tools == p.tools
            &&& r.workspace == p.workspace
            &&& r.model == p.model
        },
        None => r.fresh(
            slug,
            if slug == DEFAULT_PROJECT@ {
                DEFAULT_NAME@
            } else {
                text::trim(slug)
            },
        ),
    }
}

/// A project as it opens.
pub fn opened(slug: &str, settings: Option<Project>) -> (r: Project)
    ensures
        opens_as(slug@, settings, r),
{
    let default = text::same(slug, DEFAULT_PROJECT);
    match settings {
        Some(p) => {
            let name = if default {
                DEFAULT_NAME.to_owned()
            } else {
                p.name
            };
            Project {
                version: p.version,
                slug: slug.to_owned(),
                name,
                instructions: p.instructions,
                tools: p.tools,
                workspace: p.workspace,
                model: p.model,
            }
        },
        None => {
            if default {
                Project::default_project()
            } else {
                let mut project = Project::named(slug);
                project.slug = slug.to_owned();
                project
            }
        },
    }
}

// ---------------------------------------------------------------------------
// Orders
// ---------------------------------------------------------------------------

/// What projects are put in order by: the default one first and the rest by
/// name, whatever its case.
pub open spec fn project_order(projects: Seq<Project>) -> Seq<Key> {
    Seq::new(
        projects.len(),
        |i: int|
            Key {
                number: if projects[i].slug@ == DEFAULT_PROJECT@ {
                    0
                } else {
                    1
                },
                name: text::lowercase(projects[i].name@),
                more: Seq::empty(),
            },
    )
}

/// Whether the default project is among some.
pub open spec fn has_default(projects: Seq<Project>) -> bool {
    exists|i: int| 0 <= i < projects.len() && (#[trigger] projects[i]).slug@ == DEFAULT_PROJECT@
}

fn any_default(projects: &Vec<Project>) -> (r: bool)
    ensures
        r == has_default(projects@),
{
    let mut i: usize = 0;
    while i < projects.len()
        invariant
            0 <= i <= projects.len(),
            forall|j: int| 0 <= j < i ==> (#[trigger] projects@[j]).slug@ != DEFAULT_PROJECT@,
        decreases projects.len() - i,
    {
        if projects[i].is_default() {
            return true;
        }
        i = i + 1;
    }
    false
}

/// The projects that were found, with the default one where nobody has written
/// it yet.
pub fn with_default(projects: Vec<Project>) -> (r: Vec<Project>)
    ensures
        has_default(projects@) ==> r@ == projects@,
        !has_default(projects@) ==> r.len() == projects.len() + 1 && r@.drop_last() == projects@
            && r@.last().fresh(DEFAULT_PROJECT@, DEFAULT_NAME@),
{
    let mut r = projects;
    let ghost all = r@;
    if !any_default(&r) {
        r.push(Project::default_project());
        assert(r@.drop_last() =~= all);
    }
    r
}

/// The places of projects in their order: the default one first and the rest by
/// name.
pub fn order_projects(projects: &Vec<Project>) -> (r: Vec<usize>)
    ensures
        places(r@) == order(project_order(projects@)),
        r.len() == projects.len(),
{
    let ghost keys = project_order(projects@);
    let mut list: Vec<Rank> = Vec::new();
    let mut i: usize = 0;
    assert(ranks(list@) =~= keys.take(0));
    while i < projects.len()
        invariant
            0 <= i <= projects.len(),
            keys == project_order(projects@),
            list.len() == i,
            ranks(list@) == keys.take(i as int),
        decreases projects.len() - i,
    {
        let ghost before = ranks(list@);
        let number: i128 = if projects[i].is_default() {
            0
        } else {
            1
        };
        let rank = Rank {
            number,
            name: projects[i].name.as_str().to_lowercase(),
            more: String::new(),
        };
        list.push(rank);
        proof {
            assert(rank@ =~= keys[i as int]);
            assert(ranks(list@) =~= before.push(rank@));
            assert(keys.take(i + 1) =~= keys.take(i as int).push(keys[i as int]));
        }
        i = i + 1;
    }
    assert(keys.take(keys.len() as int) =~= keys);
    order_of(&list)
}

/// The default project comes before every other.
pub proof fn the_default_project_is_first(projects: Seq<Project>)
    requires
        has_default(projects),
    ensures
        projects[order(project_order(projects))[0]].slug@ == DEFAULT_PROJECT@,
{
    let keys = project_order(projects);
    crate::lists::lemma_order(keys);
    let o = order(keys);
    let at = choose|i: int|
        0 <= i < projects.len() && (#[trigger] projects[i]).slug@ == DEFAULT_PROJECT@;
    assert(o.contains(at));
    let k = choose|k: int| 0 <= k < o.len() && o[k] == at;
    assert(0 <= o[0] < keys.len());
    if k > 0 {
        assert(crate::lists::goes_first(keys, o[0], o[k]));
        assert(keys[at].number == 0);
    }
}

/// What chats are put in order by: the newest first.
pub open spec fn thread_order(threads: Seq<ThreadSummary>) -> Seq<Key> {
    Seq::new(
        threads.len(),
        |i: int|
            Key {
                number: -(threads[i].updated.seconds * 0x1_0000_0000 + threads[i].updated.nanos),
                name: Seq::empty(),
                more: Seq::empty(),
            },
    )
}

/// The places of chats, newest first.
pub fn order_threads(threads: &Vec<ThreadSummary>) -> (r: Vec<usize>)
    ensures
        places(r@) == order(thread_order(threads@)),
        r.len() == threads.len(),
{
    let ghost keys = thread_order(threads@);
    let mut list: Vec<Rank> = Vec::new();
    let mut i: usize = 0;
    assert(ranks(list@) =~= keys.take(0));
    while i < threads.len()
        invariant
            0 <= i <= threads.len(),
            keys == thread_order(threads@),
            list.len() == i,
            ranks(list@) == keys.take(i as int),
        decreases threads.len() - i,
    {
        let ghost before = ranks(list@);
        let updated = threads[i].updated;
        let rank = Rank {
            number: -(updated.seconds as i128 * 0x1_0000_0000 + updated.nanos as i128),
            name: String::new(),
            more: String::new(),
        };
        list.push(rank);
        proof {
            assert(rank@ =~= keys[i as int]);
            assert(ranks(list@) =~= before.push(rank@));
            assert(keys.take(i + 1) =~= keys.take(i as int).push(keys[i as int]));
        }
        i = i + 1;
    }
    assert(keys.take(keys.len() as int) =~= keys);
    order_of(&list)
}

/// In that order no chat is older than the one behind it.
pub proof fn the_newest_chat_is_first(threads: Seq<ThreadSummary>)
    ensures
        forall|i: int, j: int|
            0 <= i < j < threads.len() ==> threads[#[trigger] order(
                thread_order(threads),
            )[j]].updated.up_to(threads[#[trigger] order(thread_order(threads))[i]].updated),
{
    let keys = thread_order(threads);
    crate::lists::lemma_order(keys);
    let o = order(keys);
    assert forall|i: int, j: int| 0 <= i < j < threads.len() implies threads[#[trigger] o[j]].updated.up_to(
        threads[#[trigger] o[i]].updated,
    ) by {
        assert(crate::lists::goes_first(keys, o[i], o[j]));
        let a = threads[o[i]].updated;
        let b = threads[o[j]].updated;
        assert(keys[o[i]].number == -(a.seconds * 0x1_0000_0000 + a.nanos));
        assert(keys[o[j]].number == -(b.seconds * 0x1_0000_0000 + b.nanos));
        assert(a.seconds * 0x1_0000_0000 + a.nanos >= b.seconds * 0x1_0000_0000 + b.nanos);
    }
}

/// What saved workflows are put in order by: their goal, whatever its case.
pub open spec fn workflow_order(goals: Seq<Seq<char>>) -> Seq<Key> {
    goals.map_values(
        |goal: Seq<char>|
            Key { number: 0, name: text::lowercase(goal), more: Seq::empty() },
    )
}

/// The places of saved workflows, by goal.
pub fn order_workflows(goals: &Vec<String>) -> (r: Vec<usize>)
    ensures
        places(r@) == order(workflow_order(text::texts(goals@))),
        r.len() == goals.len(),
{
    let ghost keys = workflow_order(text::texts(goals@));
    let mut list: Vec<Rank> = Vec::new();
    let mut i: usize = 0;
    assert(ranks(list@) =~= keys.take(0));
    while i < goals.len()
        invariant
            0 <= i <= goals.len(),
            keys == workflow_order(text::texts(goals@)),
            list.len() == i,
            ranks(list@) == keys.take(i as int),
        decreases goals.len() - i,
    {
        let ghost before = ranks(list@);
        let rank = Rank {
            number: 0,
            name: goals[i].as_str().to_lowercase(),
            more: String::new(),
        };
        list.push(rank);
        proof {
            assert(rank@ =~= keys[i as int]);
            assert(ranks(list@) =~= before.push(rank@));
            assert(keys.take(i + 1) =~= keys.take(i as int).push(keys[i as int]));
        }
        i = i + 1;
    }
    assert(keys.take(keys.len() as int) =~= keys);
    order_of(&list)
}

/// The first name of a list from `i` on that is a slug: -1 where none is.
pub open spec fn filed_at(names: Seq<Seq<char>>, wanted: Seq<char>, i: int) -> int
    decreases names.len() - i,
{
    if i < 0 || i >= names.len() {
        -1
    } else if names[i] == wanted {
        i
    } else {
        filed_at(names, wanted, i + 1)
    }
}

/// A workflow is found by its goal exactly where one is filed under the name that
/// saving it gives, and what is found is filed under that name.
pub proof fn a_saved_workflow_is_found_by_its_goal(filed: Seq<Seq<char>>, goal: Seq<char>)
    ensures
        filed_at(filed, slug(goal), 0) >= 0 <==> filed.contains(slug(goal)),
        filed_at(filed, slug(goal), 0) >= 0 ==> {
            let i = filed_at(filed, slug(goal), 0);
            i < filed.len() && filed[i] == slug(goal)
        },
{
    lemma_filed_at(filed, slug(goal), 0);
    if filed.contains(slug(goal)) {
        let j = choose|j: int| 0 <= j < filed.len() && filed[j] == slug(goal);
        assert(filed[j] == slug(goal));
    }
}

proof fn lemma_filed_at(names: Seq<Seq<char>>, wanted: Seq<char>, i: int)
    requires
        0 <= i,
    ensures
        ({
            let r = filed_at(names, wanted, i);
            &&& r == -1 || (i <= r < names.len() && names[r] == wanted)
            &&& forall|j: int| i <= j < names.len() && #[trigger] names[j] == wanted ==> r >= 0
        }),
    decreases names.len() - i,
{
    if i < names.len() && names[i] != wanted {
        lemma_filed_at(names, wanted, i + 1);
    }
}

/// Which of the saved workflows is meant, given the names they are filed under.
/// The name is slugified on the way in, so the name that a workflow is filed under
/// finds it as its goal does.
pub fn load_workflow(filed: &Vec<String>, name: &str) -> (r: Option<usize>)
    ensures
        match r {
            Some(i) => i < filed.len() && filed_at(text::texts(filed@), slug(name@), 0) == i
                && filed_at(text::texts(filed@), slug(filed[i as int]@), 0) == i,
            None => filed_at(text::texts(filed@), slug(name@), 0) == -1,
        },
        r is Some <==> text::texts(filed@).contains(slug(name@)),
{
    let wanted = slugify(name);
    proof {
        a_saved_workflow_is_found_by_its_goal(text::texts(filed@), name@);
    }
    let ghost all = text::texts(filed@);
    let mut i: usize = 0;
    while i < filed.len()
        invariant
            0 <= i <= filed.len(),
            all == text::texts(filed@),
            wanted@ == slug(name@),
            slug(wanted@) == wanted@,
            all.contains(wanted@) <==> filed_at(all, wanted@, 0) >= 0,
            filed_at(all, wanted@, 0) == filed_at(all, wanted@, i as int),
        decreases filed.len() - i,
    {
        if text::same(filed[i].as_str(), wanted.as_str()) {
            return Some(i);
        }
        i = i + 1;
    }
    None
}

// ---------------------------------------------------------------------------
// What has been talked about
// ---------------------------------------------------------------------------

/// What was said in a chat: the questions and the answers.
pub open spec fn turn_texts(turns: Seq<Turn>) -> Seq<Seq<char>> {
    turns.map_values(|turn: Turn| turn.user@ + "\n"@ + turn.answer@)
}

pub open spec fn said(turns: Seq<Turn>) -> Seq<char> {
    text::join(turn_texts(turns), "\n"@)
}

/// What is taken of a project's chats, newest first: as long as there is room,
/// and up to the first that is too long ago. Chats that cannot be read, and
/// those in which nothing was said, are skipped.
pub open spec fn taken_from(chats: Seq<Conversation>, i: int, since: Stamp, room: int) -> Seq<
    Seq<char>,
>
    decreases chats.len() - i,
{
    if i < 0 || i >= chats.len() || room <= 0 || !since.up_to(chats[i].updated) {
        Seq::empty()
    } else {
        match chats[i].turns {
            Some(turns) => if text::trim(said(turns@)).len() > 0 {
                seq![said(turns@)] + taken_from(chats, i + 1, since, room - 1)
            } else {
                taken_from(chats, i + 1, since, room)
            },
            None => taken_from(chats, i + 1, since, room),
        }
    }
}

/// What is taken of the chats of all projects.
pub open spec fn taken(projects: Seq<Vec<Conversation>>, since: Stamp, cap: int) -> Seq<Seq<char>>
    decreases projects.len(),
{
    if projects.len() == 0 {
        Seq::empty()
    } else {
        let before = taken(projects.drop_last(), since, cap);
        before + taken_from(projects.last()@, 0, since, cap - before.len())
    }
}

fn said_in(turns: &Vec<Turn>) -> (r: String)
    ensures
        r@ == said(turns@),
{
    let mut list: Vec<String> = Vec::new();
    let mut i: usize = 0;
    while i < turns.len()
        invariant
            0 <= i <= turns.len(),
            list.len() == i,
            forall|j: int|
                0 <= j < i ==> (#[trigger] list[j])@ == turns@[j].user@ + "\n"@ + turns@[j].answer@,
        decreases turns.len() - i,
    {
        let mut s = turns[i].user.as_str().to_owned();
        s.append("\n");
        s.append(turns[i].answer.as_str());
        list.push(s);
        i = i + 1;
    }
    assert(text::texts(list@) =~= turn_texts(turns@));
    text::joined(&list, "\n")
}

/// What has been talked about lately, across every project: one text per chat.
/// Each project's chats are given newest first.
pub fn recent_conversations(projects: &Vec<Vec<Conversation>>, since: Stamp, cap: usize) -> (r: Vec<
    String,
>)
    ensures
        text::texts(r@) == taken(projects@, since, cap as int),
        r.len() <= cap,
{
    let mut r: Vec<String> = Vec::new();
    let mut k: usize = 0;
    assert(text::texts(r@) =~= Seq::empty());
    while k < projects.len()
        invariant
            0 <= k <= projects.len(),
            text::texts(r@) == taken(projects@.take(k as int), since, cap as int),
            r.len() <= cap,
        decreases projects.len() - k,
    {
        let chats = &projects[k];
        let ghost start = text::texts(r@);
        let ghost room = cap - start.len();
        assert(projects@.take(k + 1).drop_last() =~= projects@.take(k as int));
        let ghost whole = taken_from(chats@, 0, since, room);
        let mut i: usize = 0;
        assert(text::texts(r@) + whole =~= start + whole);
        while i < chats.len() && r.len() < cap && since.not_after(&chats[i].updated)
            invariant
                0 <= i <= chats.len(),
                r.len() <= cap,
                room == cap - start.len(),
                whole == taken_from(chats@, 0, since, room),
                start + whole == text::texts(r@) + taken_from(
                    chats@,
                    i as int,
                    since,
                    cap - r.len(),
                ),
            decreases chats.len() - i,
        {
            let ghost before = text::texts(r@);
            if let Some(turns) = &chats[i].turns {
                let one = said_in(turns);
                let chars = text::chars_of(one.as_str());
                if text::trimmed(chars.as_slice()).len() > 0 {
                    let ghost rest = taken_from(chats@, i + 1, since, cap - r.len() - 1);
                    r.push(one);
                    assert(text::texts(r@) =~= before.push(one@));
                    assert(before + (seq![one@] + rest) =~= before.push(one@) + rest);
                }
            }
            i = i + 1;
        }
        assert(text::texts(r@) + Seq::<Seq<char>>::empty() =~= text::texts(r@));
        k = k + 1;
    }
    assert(projects@.take(projects@.len() as int) =~= projects@);
    r
}

// ---------------------------------------------------------------------------
// What names become, and what was said lately
// ---------------------------------------------------------------------------

/// Whether a text is one word in small letters and digits.
pub open spec fn is_plain_word(s: Seq<char>) -> bool {
    s.len() > 0 && forall|i: int|
        0 <= i < s.len() ==> ('a' <= #[trigger] s[i] && s[i] <= 'z') || ('0' <= s[i] && s[i]
            <= '9')
}

proof fn lemma_dashed_word(s: Seq<char>, word: Seq<char>)
    requires
        forall|i: int|
            0 <= i < word.len() ==> ('a' <= #[trigger] word[i] && word[i] <= 'z') || ('0'
                <= word[i] && word[i] <= '9'),
    ensures
        dashed(s + word) == dashed(s) + word,
    decreases word.len(),
{
    if word.len() == 0 {
        assert(s + word =~= s);
        assert(dashed(s) + word =~= dashed(s));
    } else {
        lemma_dashed_word(s, word.drop_last());
        assert((s + word).drop_last() =~= s + word.drop_last());
        assert((s + word).last() == word.last());
        assert(word.last() == word[word.len() - 1]);
        assert(dashed(s) + word =~= (dashed(s) + word.drop_last()).push(word.last()));
    }
}

proof fn lemma_dashed_words(words: Seq<Seq<char>>, gap: char)
    requires
        words.len() > 0,
        forall|i: int| 0 <= i < words.len() ==> is_plain_word(#[trigger] words[i]),
        !text::is_ascii_alphanumeric(gap),
    ensures
        dashed(text::join(words, seq![gap])) == text::join(words, seq!['-']),
        text::join(words, seq!['-']).len() > 0,
        text::join(words, seq!['-']).last() == words.last().last(),
        text::join(words, seq!['-'])[0] == words[0][0],
    decreases words.len(),
{
    let last = words.last();
    assert(last == words[words.len() - 1]);
    if words.len() == 1 {
        lemma_dashed_word(Seq::empty(), last);
        assert(Seq::<char>::empty() + last =~= last);
        assert(dashed(Seq::<char>::empty()) =~= Seq::<char>::empty());
    } else {
        let rest = words.drop_last();
        assert(rest.last() == words[words.len() - 2]);
        lemma_dashed_words(rest, gap);
        let front = text::join(rest, seq![gap]);
        let done = text::join(rest, seq!['-']);
        assert((front + seq![gap]).drop_last() =~= front);
        assert(done.last() == rest.last()[rest.last().len() - 1]);
        assert(done.last() != '-');
        assert(dashed(front + seq![gap]) =~= done + seq!['-']);
        lemma_dashed_word(front + seq![gap], last);
        assert(text::join(words, seq!['-']) == done + seq!['-'] + last);
        assert(rest[0] == words[0]);
    }
}

/// A name of several words is filed under its words with a dash between them,
/// whatever stood between them.
pub proof fn words_are_joined_by_dashes(words: Seq<Seq<char>>, gap: char)
    requires
        words.len() > 0,
        forall|i: int| 0 <= i < words.len() ==> is_plain_word(#[trigger] words[i]),
        !text::is_ascii_alphanumeric(gap),
    ensures
        slug_from(text::join(words, seq![gap])) == text::join(words, seq!['-']),
{
    lemma_dashed_words(words, gap);
    let joined = text::join(words, seq!['-']);
    assert(words.last() == words[words.len() - 1]);
    assert(joined[0] != '-');
    assert(words.last().last() == words.last()[words.last().len() - 1]);
    assert(joined.last() != '-');
    assert(undashed_front(joined) == joined);
    assert(text::without_trailing(joined, '-') =~= joined);
}

/// Projects are shown by their names, but for the one that is always there.
pub proof fn projects_go_by_their_names(projects: Seq<Project>, i: int, j: int)
    requires
        0 <= i < j < projects.len(),
        projects[order(project_order(projects))[i]].slug@ != DEFAULT_PROJECT@,
    ensures
        projects[order(project_order(projects))[j]].slug@ != DEFAULT_PROJECT@,
        !text::precedes(
            text::lowercase(projects[order(project_order(projects))[j]].name@),
            text::lowercase(projects[order(project_order(projects))[i]].name@),
        ),
{
    let keys = project_order(projects);
    crate::lists::lemma_order(keys);
    let a = order(keys)[i];
    let b = order(keys)[j];
    assert(crate::lists::goes_first(keys, a, b));
    text::lemma_precedes_total(keys[a].name, keys[b].name);
}

/// Workflows are shown by their goals.
pub proof fn workflows_go_by_their_goals(goals: Seq<Seq<char>>, i: int, j: int)
    requires
        0 <= i < j < goals.len(),
    ensures
        !text::precedes(
            text::lowercase(goals[order(workflow_order(goals))[j]]),
            text::lowercase(goals[order(workflow_order(goals))[i]]),
        ),
{
    let keys = workflow_order(goals);
    crate::lists::lemma_order(keys);
    let a = order(keys)[i];
    let b = order(keys)[j];
    assert(crate::lists::goes_first(keys, a, b));
    text::lemma_precedes_total(keys[a].name, keys[b].name);
}

/// What is read of a chat holds what was asked and what was answered, each turn of
/// it.
pub proof fn every_turn_is_read(turns: Seq<Turn>, i: int)
    requires
        0 <= i < turns.len(),
    ensures
        text::holds(said(turns), turns[i].user@),
        text::holds(said(turns), turns[i].answer@),
        text::holds(said(turns), turns[i].user@ + "\n"@ + turns[i].answer@),
{
    let parts = turn_texts(turns);
    text::lemma_join_holds(parts, "\n"@, i);
    let one = turns[i].user@ + "\n"@ + turns[i].answer@;
    assert(parts[i] == one);
    let none = Seq::<char>::empty();
    text::lemma_holds_between(none, turns[i].user@, "\n"@ + turns[i].answer@);
    assert(none + turns[i].user@ + ("\n"@ + turns[i].answer@) =~= one);
    text::lemma_holds_between(turns[i].user@ + "\n"@, turns[i].answer@, none);
    assert(turns[i].user@ + "\n"@ + turns[i].answer@ + none =~= one);
    text::lemma_holds_within(said(turns), one, turns[i].user@);
    text::lemma_holds_within(said(turns), one, turns[i].answer@);
}

/// Whether a chat can be read and says anything.
pub open spec fn says_something(chat: Conversation) -> bool {
    chat.turns matches Some(turns) && text::trim(said(turns@)).len() > 0
}

proof fn lemma_taken_from(chats: Seq<Conversation>, i: int, since: Stamp, room: int)
    requires
        0 <= i <= chats.len(),
        room >= chats.len() - i,
        forall|k: int| i <= k < chats.len() ==> since.up_to((#[trigger] chats[k]).updated),
    ensures
        taken_from(chats, i, since, room) == chats.skip(i).filter(
            |chat: Conversation| says_something(chat),
        ).map_values(|chat: Conversation| said(chat.turns->0@)),
    decreases chats.len() - i,
{
    reveal(Seq::filter);
    let keep = |chat: Conversation| says_something(chat);
    let say = |chat: Conversation| said(chat.turns->0@);
    let here = chats.skip(i);
    if i == chats.len() {
        assert(here.filter(keep).map_values(say) =~= taken_from(chats, i, since, room));
    } else {
        let rest = chats.skip(i + 1);
        assert(here =~= seq![chats[i]] + rest);
        let one = seq![chats[i]];
        Seq::filter_distributes_over_add(one, rest, keep);
        assert(one.drop_last() =~= Seq::empty());
        assert(one.drop_last().filter(keep) =~= Seq::empty());
        if says_something(chats[i]) {
            assert(one.filter(keep) =~= one);
            lemma_taken_from(chats, i + 1, since, room - 1);
            assert((one + rest.filter(keep)).map_values(say) =~= seq![say(chats[i])] + rest.filter(
                keep,
            ).map_values(say));
        } else {
            assert(one.filter(keep) =~= Seq::empty());
            lemma_taken_from(chats, i + 1, since, room);
            assert(one.filter(keep) + rest.filter(keep) =~= rest.filter(keep));
        }
    }
}

/// Where everything is recent and there is room for it, every chat that says
/// anything is read, in their order.
pub proof fn every_recent_chat_is_read(chats: Vec<Conversation>, since: Stamp, cap: int)
    requires
        cap >= chats.len(),
        forall|k: int| 0 <= k < chats.len() ==> since.up_to((#[trigger] chats[k]).updated),
    ensures
        taken(seq![chats], since, cap) == chats@.filter(
            |chat: Conversation| says_something(chat),
        ).map_values(|chat: Conversation| said(chat.turns->0@)),
{
    lemma_taken_from(chats@, 0, since, cap);
    assert(chats@.skip(0) =~= chats@);
    let all = seq![chats];
    assert(all.drop_last() =~= Seq::empty());
    assert(taken(all.drop_last(), since, cap) =~= Seq::empty());
    assert(taken(all, since, cap) =~= taken_from(chats@, 0, since, cap));
}

/// Nothing is read of a chat that is too old, nor of those behind it.
pub proof fn nothing_too_old_is_read(chats: Vec<Conversation>, since: Stamp, cap: int)
    requires
        chats.len() > 0,
        !since.up_to(chats[0].updated),
    ensures
        taken(seq![chats], since, cap) == Seq::<Seq<char>>::empty(),
{
    let all = seq![chats];
    assert(all.drop_last() =~= Seq::empty());
    assert(taken(all.drop_last(), since, cap) =~= Seq::empty());
}

} // verus!
