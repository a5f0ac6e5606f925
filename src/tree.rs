use vstd::prelude::*;

verus! {

/// An entry in a directory, or the entry at a given path: a name with its content.
///
/// Entries compare equal when both the names and the contents are equal.
#[derive(Debug)]
pub struct Entry {
    name: String,
    content: Content,
}

/// What lies at a path, regardless of the path's own name.
///
/// Contents compare equal when they are the same variant with equal bytes, or with
/// equal children position by position; the children's names take part.
#[derive(Debug)]
pub enum Content {
    /// The bytes of a file.
    File(Vec<u8>),
    /// The children of a directory, in the order they were listed.
    Entries(Vec<Entry>),
}

/// Declares `std::io::Error`, the failure that reading the filesystem reports; the
/// library only carries it, opaque, from a probe to the caller.
#[verifier::external_type_specification]
#[verifier::external_body]
pub struct ExIoError(std::io::Error);

/// The errors that may arise when reading an [`Entry`] or a [`Content`].
#[derive(Debug)]
pub enum EntryError {
    /// The path has no final component to name the entry by (it ends with `..`).
    InvalidPath(String),
    /// Something went wrong when reading from disk.
    IoError(std::io::Error),
}

/// The text that `Debug` formatting gives the path `path`: quoted, with escapes.
pub uninterp spec fn path_debug_text(path: Seq<char>) -> Seq<char>;

/// Relies on the `Debug` formatting of `std::path::Path`: the text depends on the
/// path alone.
#[verifier::external_body]
fn path_debug(path: &str) -> (r: String)
    ensures
        r@ == path_debug_text(path@),
{
    format!("{:?}", std::path::Path::new(path))
}

/// Relies on the `Display` formatting of `std::io::Error`: the error's own message.
#[verifier::external_body]
fn io_message(error: &std::io::Error) -> (r: String) {
    error.to_string()
}

impl EntryError {
    /// A human-readable account of the error: for an invalid path, a sentence that
    /// names the path and the `..` restriction; for an I/O failure, its own message.
    pub fn message(&self) -> (r: String)
        ensures
            self matches EntryError::InvalidPath(path) ==> r@ == path_debug_text(path@)
                + " is not a valid path. Cannot create an entry for the directory, `..`."@,
    {
        match self {
            EntryError::InvalidPath(path) => {
                let mut r = path_debug(path.as_str());
                r.append(" is not a valid path. Cannot create an entry for the directory, `..`.");
                r
            },
            EntryError::IoError(error) => io_message(error),
        }
    }
}

/// The mathematical value of a [`Content`].
pub enum ContentView {
    File(Seq<u8>),
    Entries(Seq<EntryView>),
}

/// The mathematical value of an [`Entry`].
pub struct EntryView {
    pub name: Seq<char>,
    pub content: ContentView,
}

impl View for Entry {
    type V = EntryView;

    closed spec fn view(&self) -> EntryView
        decreases self,
    {
        EntryView { name: self.name@, content: self.content@ }
    }
}

impl View for Content {
    type V = ContentView;

    closed spec fn view(&self) -> ContentView
        decreases self,
    {
        match self {
            Content::File(bytes) => ContentView::File(bytes@),
            Content::Entries(entries) => ContentView::Entries(entries_view(entries@)),
        }
    }
}

/// The views of a sequence of entries, position by position.
pub closed spec fn entries_view(entries: Seq<Entry>) -> Seq<EntryView>
    decreases entries,
{
    if entries.len() == 0 {
        Seq::empty()
    } else {
        entries_view(entries.drop_last()).push(entries.last()@)
    }
}

/// `entries_view` keeps the length and views each entry in place.
pub proof fn lemma_entries_view(entries: Seq<Entry>)
    ensures
        entries_view(entries).len() == entries.len(),
        forall|i: int| 0 <= i < entries.len() ==> #[trigger] entries_view(entries)[i] == entries[i]@,
    decreases entries.len(),
{
    if entries.len() > 0 {
        lemma_entries_view(entries.drop_last());
        assert(entries_view(entries) == entries_view(entries.drop_last()).push(entries.last()@));
    } else {
        assert(entries_view(entries) == Seq::<EntryView>::empty());
    }
}

/// The view of a content: the bytes as they are, or each entry's view in place.
pub proof fn lemma_content_view(c: &Content)
    ensures
        match c {
            Content::File(bytes) => c@ == ContentView::File(bytes@),
            Content::Entries(entries) => {
                &&& c@ is Entries
                &&& c@->Entries_0.len() == entries.len()
                &&& forall|i: int| 0 <= i < entries.len() ==> #[trigger] c@->Entries_0[i] == entries@[i]@
            },
        },
{
    if let Content::Entries(entries) = c {
        lemma_entries_view(entries@);
    }
}

impl Entry {
    pub(crate) fn new(name: String, content: Content) -> (e: Entry)
        ensures
            e@ == (EntryView { name: name@, content: content@ }),
    {
        Entry { name, content }
    }

    /// The entry's name.
    pub fn name(&self) -> (r: &String)
        ensures
            r@ == self@.name,
    {
        &self.name
    }

    /// The entry's content.
    pub fn content(&self) -> (r: &Content)
        ensures
            r@ == self@.content,
    {
        &self.content
    }
}

fn bytes_eq(a: &Vec<u8>, b: &Vec<u8>) -> (r: bool)
    ensures
        r == (a@ == b@),
{
    if a.len() != b.len() {
        return false;
    }
    let mut i: usize = 0;
    while i < a.len()
        invariant
            a.len() == b.len(),
            i <= a.len(),
            a@.subrange(0, i as int) == b@.subrange(0, i as int),
        decreases a.len() - i,
    {
        if a[i] != b[i] {
            assert(a@[i as int] != b@[i as int]);
            return false;
        }
        assert(a@.subrange(0, i + 1) =~= a@.subrange(0, i as int).push(a@[i as int]));
        assert(b@.subrange(0, i + 1) =~= b@.subrange(0, i as int).push(b@[i as int]));
        i = i + 1;
    }
    assert(a@ =~= a@.subrange(0, i as int));
    assert(b@ =~= b@.subrange(0, i as int));
    true
}

fn content_eq(a: &Content, b: &Content) -> (r: bool)
    ensures
        r == (a@ == b@),
    decreases a,
{
    match a {
        Content::File(x) => match b {
            Content::File(y) => bytes_eq(x, y),
            Content::Entries(_) => false,
        },
        Content::Entries(x) => match b {
            Content::File(_) => false,
            Content::Entries(y) => {
                proof {
                    lemma_entries_view(x@);
                    lemma_entries_view(y@);
                }
                if x.len() != y.len() {
                    return false;
                }
                let mut i: usize = 0;
                while i < x.len()
                    invariant
                        x.len() == y.len(),
                        i <= x.len(),
                        a->Entries_0 == *x,
                        a@ == ContentView::Entries(entries_view(x@)),
                        b@ == ContentView::Entries(entries_view(y@)),
                        forall|j: int| 0 <= j < i ==> x@[j]@ == y@[j]@,
                        entries_view(x@).len() == x.len(),
                        entries_view(y@).len() == y.len(),
                        forall|j: int| 0 <= j < x.len() ==> #[trigger] entries_view(x@)[j] == x@[j]@,
                        forall|j: int| 0 <= j < y.len() ==> #[trigger] entries_view(y@)[j] == y@[j]@,
                    decreases x.len() - i,
                {
                    proof {
                        assert(decreases_to!(*x => x[i as int]));
                    }
                    if !entry_eq(&x[i], &y[i]) {
                        assert(entries_view(x@)[i as int] != entries_view(y@)[i as int]);
                        return false;
                    }
                    i = i + 1;
                }
                assert(entries_view(x@) =~= entries_view(y@));
                true
            },
        },
    }
}

fn entry_eq(a: &Entry, b: &Entry) -> (r: bool)
    ensures
        r == (a@ == b@),
    decreases a,
{
    a.name == b.name && content_eq(&a.content, &b.content)
}

impl PartialEq for Content {
    fn eq(&self, other: &Content) -> (r: bool) {
        content_eq(self, other)
    }
}

impl vstd::std_specs::cmp::PartialEqSpecImpl for Content {
    open spec fn obeys_eq_spec() -> bool {
        true
    }

    open spec fn eq_spec(&self, other: &Content) -> bool {
        self@ == other@
    }
}

impl Eq for Content {}

impl PartialEq for Entry {
    fn eq(&self, other: &Entry) -> (r: bool) {
        entry_eq(self, other)
    }
}

impl vstd::std_specs::cmp::PartialEqSpecImpl for Entry {
    open spec fn obeys_eq_spec() -> bool {
        true
    }

    open spec fn eq_spec(&self, other: &Entry) -> bool {
        self@ == other@
    }
}

impl Eq for Entry {}

} // verus!
