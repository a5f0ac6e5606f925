use vstd::prelude::*;

use crate::name::{ends_in_parent, entry_name, name_of};
use crate::tree::{lemma_content_view, Content, ContentView, Entry, EntryError, EntryView};

verus! {

/// What the filesystem showed at the path that a walk asked for.
#[derive(Debug)]
pub enum Probe {
    /// A regular file, with all of its bytes.
    File(Vec<u8>),
    /// A directory, with the paths of its children in listing order.
    Directory(Vec<String>),
    /// Reading the path failed.
    Failed(std::io::Error),
}

/// What a successful probe recorded, as mathematical values.
pub enum Observed {
    File(Seq<u8>),
    Directory(Seq<Seq<char>>),
}

/// The views of a sequence of paths.
pub open spec fn paths_view(paths: Seq<String>) -> Seq<Seq<char>> {
    Seq::new(paths.len(), |i: int| paths[i]@)
}

/// What `probe` records, when it did not fail.
pub open spec fn observed(probe: Probe) -> Observed {
    match probe {
        Probe::File(bytes) => Observed::File(bytes@),
        Probe::Directory(children) => Observed::Directory(paths_view(children@)),
        Probe::Failed(_) => Observed::File(Seq::empty()),
    }
}

/// The children that an observation lists: none for a file.
pub open spec fn listing(o: Observed) -> Seq<Seq<char>> {
    match o {
        Observed::File(_) => Seq::empty(),
        Observed::Directory(children) => children,
    }
}

/// Whether `content` is the tree that `log` records at position `pos` and below.
///
/// A position is the index of the child taken at each level, from the top; the log
/// maps each position that was read to what was found there.
pub open spec fn records(log: Map<Seq<int>, Observed>, pos: Seq<int>, content: ContentView) -> bool
    decreases content,
{
    &&& log.contains_key(pos)
    &&& match content {
        ContentView::File(bytes) => log[pos] == Observed::File(bytes),
        ContentView::Entries(entries) => {
            &&& log[pos] is Directory
            &&& entries.len() == listing(log[pos]).len()
            &&& forall|i: int|
                0 <= i < entries.len() ==> {
                    &&& name_of(listing(log[pos])[i]) == Some((#[trigger] entries[i]).name)
                    &&& records(log, pos.push(i), entries[i].content)
                }
        },
    }
}

/// The position that depth-first order visits after the whole tree at `pos`: the
/// next sibling of `pos` or of its nearest ancestor that has one; none at the end.
pub open spec fn after(log: Map<Seq<int>, Observed>, pos: Seq<int>) -> Option<Seq<int>>
    decreases pos.len(),
{
    if pos.len() == 0 {
        None
    } else {
        let parent = pos.drop_last();
        if pos.last() + 1 < listing(log[parent]).len() {
            Some(parent.push(pos.last() + 1))
        } else {
            after(log, parent)
        }
    }
}

/// The position that depth-first order visits after `pos`, once `pos` was read:
/// its first child, if it has one, else the position after its tree.
pub open spec fn next_position(log: Map<Seq<int>, Observed>, pos: Seq<int>) -> Option<Seq<int>> {
    if listing(log[pos]).len() > 0 {
        Some(pos.push(0))
    } else {
        after(log, pos)
    }
}

/// The path of the node at `pos`: `root` for the top, else as its parent listed it.
pub open spec fn path_at(log: Map<Seq<int>, Observed>, root: Seq<char>, pos: Seq<int>) -> Seq<char> {
    if pos.len() == 0 {
        root
    } else {
        listing(log[pos.drop_last()])[pos.last()]
    }
}

/// A directory that a walk is inside of.
struct Level {
    /// The paths of the directory's children, in listing order.
    children: Vec<String>,
    /// The children read so far.
    entries: Vec<Entry>,
    /// The name of the child being read now, the one after `entries`.
    current: String,
}

/// The position of the node that a walk inside `levels` reads now.
spec fn position(levels: Seq<Level>) -> Seq<int> {
    Seq::new(levels.len(), |k: int| levels[k].entries.len() as int)
}

/// Whether `level` is consistent with the log, for a directory at position `pos`.
spec fn level_ok(log: Map<Seq<int>, Observed>, pos: Seq<int>, level: Level) -> bool {
    &&& log.contains_key(pos)
    &&& log[pos] == Observed::Directory(paths_view(level.children@))
    &&& level.entries.len() < level.children.len()
    &&& name_of(level.children@[level.entries.len() as int]@) == Some(level.current@)
    &&& forall|i: int|
        0 <= i < level.entries.len() ==> {
            &&& name_of(level.children@[i]@) == Some((#[trigger] level.entries@[i])@.name)
            &&& records(log, pos.push(i), level.entries@[i]@.content)
        }
}

/// A snapshot being read, one path at a time.
///
/// The walk asks for a path ([`Walk::next_path`]); the caller looks at the
/// filesystem there and hands back what it found ([`Walk::feed`]). Directories are
/// entered depth first, children in listing order. The first failure ends the walk.
pub struct Walk {
    root: String,
    name: Option<String>,
    levels: Vec<Level>,
    next: Option<String>,
    outcome: Option<Result<Content, EntryError>>,
    log: Ghost<Map<Seq<int>, Observed>>,
}

impl Walk {
    /// The path the walk began at.
    pub closed spec fn root(&self) -> Seq<char> {
        self.root@
    }

    /// The name of the top entry, for a walk begun by [`Entry::at`].
    pub closed spec fn name(&self) -> Option<Seq<char>> {
        match self.name {
            Some(n) => Some(n@),
            None => None,
        }
    }

    /// What the walk has found so far, by position.
    pub closed spec fn log(&self) -> Map<Seq<int>, Observed> {
        self.log@
    }

    /// The position of the path that the walk asks for.
    pub closed spec fn cursor(&self) -> Seq<int> {
        position(self.levels@)
    }

    /// The result, once the walk is over.
    pub closed spec fn outcome(&self) -> Option<Result<Content, EntryError>> {
        self.outcome
    }

    /// The walk is consistent with its log: while it goes on, each open directory
    /// holds what the log lists there and the children read so far, and the path it
    /// asks for is the one listed at the cursor; once it is over with a content,
    /// that content is what the log records from the top.
    pub closed spec fn wf(&self) -> bool {
        &&& self.outcome is None <==> self.next is Some
        &&& self.name matches Some(n) ==> name_of(self.root@) == Some(n@)
        &&& self.outcome is None ==> {
            &&& self.next->0@ == path_at(self.log@, self.root@, position(self.levels@))
            &&& forall|k: int|
                0 <= k < self.levels.len() ==> level_ok(
                    self.log@,
                    #[trigger] position(self.levels@.take(k)),
                    self.levels@[k],
                )
        }
        &&& self.outcome matches Some(Ok(c)) ==> records(self.log@, Seq::empty(), c@)
    }
}

/// Whether `q` is a prefix of `p`.
pub open spec fn is_prefix(q: Seq<int>, p: Seq<int>) -> bool {
    q.len() <= p.len() && p.take(q.len() as int) == q
}

/// Recording a position outside a tree leaves what is recorded of the tree as it was.
proof fn lemma_records_frame(
    log: Map<Seq<int>, Observed>,
    q: Seq<int>,
    c: ContentView,
    p: Seq<int>,
    o: Observed,
)
    requires
        records(log, q, c),
        !is_prefix(q, p),
    ensures
        records(log.insert(p, o), q, c),
    decreases c,
{
    assert(q != p) by {
        if q == p {
            assert(p.take(q.len() as int) =~= q);
        }
    }
    if let ContentView::Entries(entries) = c {
        assert forall|i: int| 0 <= i < entries.len() implies records(
            log.insert(p, o),
            q.push(i),
            entries[i].content,
        ) by {
            if is_prefix(q.push(i), p) {
                assert(p.take(q.len() as int) =~= p.take((q.len() + 1) as int).take(q.len() as int));
                assert(q.push(i).take(q.len() as int) =~= q);
            }
            lemma_records_frame(log, q.push(i), entries[i].content, p, o);
        }
    }
}

spec fn levels_ok(log: Map<Seq<int>, Observed>, levels: Seq<Level>) -> bool {
    forall|k: int|
        0 <= k < levels.len() ==> level_ok(log, #[trigger] position(levels.take(k)), levels[k])
}

/// Recording the position a walk reads now keeps its open directories consistent.
proof fn lemma_levels_frame(log: Map<Seq<int>, Observed>, levels: Seq<Level>, o: Observed)
    requires
        levels_ok(log, levels),
    ensures
        levels_ok(log.insert(position(levels), o), levels),
{
    let p = position(levels);
    let log2 = log.insert(p, o);
    assert forall|k: int| 0 <= k < levels.len() implies level_ok(
        log2,
        #[trigger] position(levels.take(k)),
        levels[k],
    ) by {
        let pk = position(levels.take(k));
        let l = levels[k];
        assert(pk.len() == k);
        assert(pk != p);
        assert forall|i: int| 0 <= i < l.entries.len() implies records(
            log2,
            pk.push(i),
            (#[trigger] l.entries@[i])@.content,
        ) by {
            assert(level_ok(log, pk, l));
            if is_prefix(pk.push(i), p) {
                assert(p.take(k + 1)[k] == p[k]);
                assert(pk.push(i)[k] == i);
            }
            lemma_records_frame(log, pk.push(i), l.entries@[i]@.content, p, o);
        }
    }
}

/// The positions of a walk with one more open directory.
proof fn lemma_position_push(levels: Seq<Level>, l: Level)
    ensures
        position(levels.push(l)) == position(levels).push(l.entries.len() as int),
        levels.push(l).take(levels.len() as int) == levels,
        forall|k: int| 0 <= k < levels.len() ==> #[trigger] levels.push(l).take(k) == levels.take(k),
{
    assert(position(levels.push(l)) =~= position(levels).push(l.entries.len() as int));
    assert(levels.push(l).take(levels.len() as int) =~= levels);
    assert forall|k: int| 0 <= k < levels.len() implies #[trigger] levels.push(l).take(k) == levels.take(k) by {
        assert(levels.push(l).take(k) =~= levels.take(k));
    }
}

proof fn lemma_levels_pop(log: Map<Seq<int>, Observed>, rest: Seq<Level>, top: Level)
    requires
        levels_ok(log, rest.push(top)),
    ensures
        levels_ok(log, rest),
        level_ok(log, position(rest), top),
{
    lemma_position_push(rest, top);
    let levels = rest.push(top);
    assert(level_ok(log, position(levels.take(rest.len() as int)), levels[rest.len() as int]));
    assert forall|k: int| 0 <= k < rest.len() implies level_ok(
        log,
        #[trigger] position(rest.take(k)),
        rest[k],
    ) by {
        assert(levels.take(k) == rest.take(k));
        assert(level_ok(log, position(levels.take(k)), levels[k]));
    }
}

proof fn lemma_levels_push(log: Map<Seq<int>, Observed>, rest: Seq<Level>, l: Level)
    requires
        levels_ok(log, rest),
        level_ok(log, position(rest), l),
    ensures
        levels_ok(log, rest.push(l)),
{
    lemma_position_push(rest, l);
    let levels = rest.push(l);
    assert forall|k: int| 0 <= k < levels.len() implies level_ok(
        log,
        #[trigger] position(levels.take(k)),
        levels[k],
    ) by {
        if k < rest.len() {
            assert(levels.take(k) == rest.take(k));
        }
    }
}

impl Content {
    /// Begins reading the content at `path`. Its own name takes no part.
    pub fn of(path: &str) -> (w: Walk)
        ensures
            w.wf(),
            w.root() == path@,
            w.name() is None,
            w.outcome() is None,
            w.log() == Map::<Seq<int>, Observed>::empty(),
            w.cursor() == Seq::<int>::empty(),
    {
        let w = Walk {
            root: path.to_owned(),
            name: None,
            levels: Vec::new(),
            next: Some(path.to_owned()),
            outcome: None,
            log: Ghost(Map::empty()),
        };
        assert(position(w.levels@) =~= Seq::<int>::empty());
        w
    }
}

impl Entry {
    /// Begins reading the entry at `path`, named by the path's final component.
    ///
    /// Fails with [`EntryError::InvalidPath`] when the path has no final component
    /// that can name an entry, as when it ends with `..`; nothing is read then.
    pub fn at(path: &str) -> (r: Result<Walk, EntryError>)
        ensures
            ends_in_parent(path@) ==> r is Err,
            match r {
                Ok(w) => {
                    &&& name_of(path@) is Some
                    &&& w.wf()
                    &&& w.root() == path@
                    &&& w.name() == name_of(path@)
                    &&& w.outcome() is None
                    &&& w.log() == Map::<Seq<int>, Observed>::empty()
                    &&& w.cursor() == Seq::<int>::empty()
                },
                Err(e) => {
                    &&& name_of(path@) is None
                    &&& e matches EntryError::InvalidPath(p) && p@ == path@
                },
            },
    {
        match entry_name(path) {
            None => Err(EntryError::InvalidPath(path.to_owned())),
            Some(name) => {
                let w = Walk {
                    root: path.to_owned(),
                    name: Some(name),
                    levels: Vec::new(),
                    next: Some(path.to_owned()),
                    outcome: None,
                    log: Ghost(Map::empty()),
                };
                assert(position(w.levels@) =~= Seq::<int>::empty());
                Ok(w)
            },
        }
    }
}

impl Walk {
    /// The path to read next, or none once the walk is over.
    pub fn next_path(&self) -> (r: Option<String>)
        requires
            self.wf(),
        ensures
            r is Some <==> self.outcome() is None,
            r matches Some(p) ==> p@ == path_at(self.log(), self.root(), self.cursor()),
    {
        match &self.next {
            Some(p) => Some(p.clone()),
            None => None,
        }
    }

    /// The content read, or the error that ended the walk; none while it goes on.
    pub fn into_content(self) -> (r: Option<Result<Content, EntryError>>)
        ensures
            r == self.outcome(),
    {
        self.outcome
    }

    /// The entry read, for a walk begun by [`Entry::at`], or the error that ended
    /// the walk; none while it goes on, or for a walk begun by [`Content::of`].
    pub fn into_entry(self) -> (r: Option<Result<Entry, EntryError>>)
        ensures
            r is Some <==> (self.outcome() is Some && self.name() is Some),
            r matches Some(Ok(e)) ==> self.outcome() matches Some(Ok(c)) && e@ == (EntryView {
                name: self.name()->0,
                content: c@,
            }),
            r matches Some(Err(e)) ==> self.outcome() == Some(Err::<Content, EntryError>(e)),
    {
        match self.name {
            None => None,
            Some(name) => match self.outcome {
                None => None,
                Some(Ok(content)) => Some(Ok(Entry::new(name, content))),
                Some(Err(e)) => Some(Err(e)),
            },
        }
    }

    /// Places `content`, the whole tree at the current position, into the directory
    /// above it, and moves on to the next position in depth-first order.
    fn complete(&mut self, content: Content)
        requires
            old(self).outcome is None,
            old(self).name matches Some(n) ==> name_of(old(self).root@) == Some(n@),
            levels_ok(old(self).log@, old(self).levels@),
            records(old(self).log@, position(old(self).levels@), content@),
        ensures
            final(self).wf(),
            final(self).root == old(self).root,
            final(self).name == old(self).name,
            final(self).log == old(self).log,
            match after(old(self).log@, position(old(self).levels@)) {
                None => final(self).outcome() matches Some(Ok(c)) && records(
                    old(self).log@,
                    Seq::empty(),
                    c@,
                ),
                Some(p) => match name_of(path_at(old(self).log@, old(self).root@, p)) {
                    Some(_) => final(self).outcome() is None && final(self).cursor() == p,
                    None => final(self).outcome() matches Some(Err(EntryError::InvalidPath(q)))
                        && q@ == path_at(old(self).log@, old(self).root@, p),
                },
            },
    {
        let ghost log = self.log@;
        let ghost root = self.root@;
        let mut content = content;
        loop
            invariant
                self.log@ == log,
                self.root@ == root,
                self.log == old(self).log,
                self.root == old(self).root,
                self.name == old(self).name,
                self.name matches Some(n) ==> name_of(root) == Some(n@),
                self.outcome is None,
                levels_ok(log, self.levels@),
                records(log, position(self.levels@), content@),
                after(log, position(self.levels@)) == after(old(self).log@, position(old(self).levels@)),
            decreases self.levels.len(),
        {
            let ghost levels = self.levels@;
            match self.levels.pop() {
                None => {
                    assert(position(levels) =~= Seq::<int>::empty());
                    self.next = None;
                    self.outcome = Some(Ok(content));
                    return ;
                },
                Some(top) => {
                    let ghost rest = self.levels@;
                    let ghost pos = position(rest);
                    proof {
                        lemma_position_push(rest, top);
                        assert(levels == rest.push(top));
                        lemma_levels_pop(log, rest, top);
                    }
                    let Level { children, mut entries, current } = top;
                    let ghost i = entries.len() as int;
                    let e = Entry::new(current, content);
                    entries.push(e);
                    assert(entries@[i] == e);
                    assert(pos.push(i).drop_last() =~= pos);
                    if entries.len() < children.len() {
                        let path = children[entries.len()].clone();
                        assert(path_at(log, root, pos.push(i + 1)) == path@) by {
                            assert(pos.push(i + 1).drop_last() =~= pos);
                        }
                        match entry_name(path.as_str()) {
                            None => {
                                self.next = None;
                                self.outcome = Some(Err(EntryError::InvalidPath(path)));
                                return ;
                            },
                            Some(n) => {
                                let l = Level { children, entries, current: n };
                                proof {
                                    lemma_position_push(rest, l);
                                    assert forall|j: int|
                                        0 <= j < l.entries.len() implies {
                                        &&& name_of(l.children@[j]@) == Some(
                                            (#[trigger] l.entries@[j])@.name,
                                        )
                                        &&& records(log, pos.push(j), l.entries@[j]@.content)
                                    } by {
                                        if j < i {
                                            assert(l.entries@[j] == top.entries@[j]);
                                        }
                                    }
                                    assert(level_ok(log, pos, l));
                                    lemma_levels_push(log, rest, l);
                                }
                                self.levels.push(l);
                                self.next = Some(path);
                                return ;
                            },
                        }
                    } else {
                        let c = Content::Entries(entries);
                        proof {
                            lemma_content_view(&c);
                            let cv = c@->Entries_0;
                            assert forall|j: int| 0 <= j < cv.len() implies {
                                &&& name_of(listing(log[pos])[j]) == Some((#[trigger] cv[j]).name)
                                &&& records(log, pos.push(j), cv[j].content)
                            } by {
                                if j < i {
                                    assert(entries@[j] == top.entries@[j]);
                                }
                            }
                        }
                        content = c;
                    }
                },
            }
        }
    }

    /// Hands the walk what was found at the path it asked for.
    ///
    /// A failure ends the walk with that error. Otherwise the finding is recorded
    /// at the current position and the walk moves on in depth-first order; it ends
    /// with the whole tree once nothing is left, or with
    /// [`EntryError::InvalidPath`] at a child path that names no entry.
    pub fn feed(&mut self, probe: Probe)
        requires
            old(self).wf(),
            old(self).outcome() is None,
        ensures
            final(self).wf(),
            final(self).root() == old(self).root(),
            final(self).name() == old(self).name(),
            probe matches Probe::Failed(e) ==> final(self).outcome() == Some(
                Err::<Content, EntryError>(EntryError::IoError(e)),
            ),
            !(probe is Failed) ==> {
                let log = old(self).log().insert(old(self).cursor(), observed(probe));
                &&& final(self).log() == log
                &&& match next_position(log, old(self).cursor()) {
                    None => final(self).outcome() matches Some(Ok(c)) && records(
                        log,
                        Seq::empty(),
                        c@,
                    ),
                    Some(p) => match name_of(path_at(log, old(self).root(), p)) {
                        Some(_) => final(self).outcome() is None && final(self).cursor() == p,
                        None => final(self).outcome() matches Some(Err(EntryError::InvalidPath(q)))
                            && q@ == path_at(log, old(self).root(), p),
                    },
                }
            },
    {
        let ghost pos = position(self.levels@);
        proof {
            lemma_levels_frame(self.log@, self.levels@, observed(probe));
        }
        match probe {
            Probe::Failed(e) => {
                self.next = None;
                self.outcome = Some(Err(EntryError::IoError(e)));
            },
            Probe::File(bytes) => {
                self.log = Ghost(self.log@.insert(pos, Observed::File(bytes@)));
                let c = Content::File(bytes);
                proof {
                    lemma_content_view(&c);
                }
                self.complete(c);
            },
            Probe::Directory(children) => {
                let ghost o = Observed::Directory(paths_view(children@));
                self.log = Ghost(self.log@.insert(pos, o));
                if children.len() == 0 {
                    let c = Content::Entries(Vec::new());
                    proof {
                        lemma_content_view(&c);
                    }
                    self.complete(c);
                } else {
                    let path = children[0].clone();
                    assert(path_at(self.log@, self.root@, pos.push(0)) == path@) by {
                        assert(pos.push(0).drop_last() =~= pos);
                    }
                    match entry_name(path.as_str()) {
                        None => {
                            self.next = None;
                            self.outcome = Some(Err(EntryError::InvalidPath(path)));
                        },
                        Some(n) => {
                            let l = Level { children, entries: Vec::new(), current: n };
                            proof {
                                lemma_position_push(self.levels@, l);
                            }
                            self.levels.push(l);
                            self.next = Some(path);
                        },
                    }
                }
            },
        }
    }
}

} // verus!
