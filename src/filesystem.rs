//! Directory sizes from a shell transcript.
//!
//! The file system is an arena: a flat table of entries, where an entry's id is
//! its position in the table plus one and its parent is named by id. The root
//! has id 1 and the sentinel parent 0. Every other entry is created inside the
//! current directory, so its parent always has a smaller id than itself.
use vstd::prelude::*;
use vstd::string::*;
use crate::text::{number_at_most, parse_number, same_text, split_words, texts, words};

verus! {

/// The id of the root directory.
pub const ROOT_ID: usize = 1;

/// Directories of at most this size count towards the small-directory sum.
pub const SMALL_DIR_LIMIT: usize = 100_000;

/// The size of the whole disk.
pub const DISK_CAPACITY: usize = 70_000_000;

/// The free space that an update needs.
pub const REQUIRED_FREE: usize = 30_000_000;

/// Why a transcript could not be followed.
#[derive(Clone, Copy, Debug, PartialEq, Eq, Structural)]
pub enum FsError {
    /// `cd` names no child directory of the current directory.
    UnknownDirectory,
    /// `cd ..` while in the root.
    AboveRoot,
    /// A command other than `cd <name>` and `ls`.
    InvalidCommand,
    /// A listing line that is neither `dir <name>` nor `<size> <name>`.
    MalformedLine,
    /// The table holds as many entries as ids can count.
    TooManyEntries,
    /// Some directory's recursive size does not fit in a `usize`.
    SizeOverflow,
}

/// A file or a directory of the table.
pub struct Entry {
    pub id: usize,
    pub name: String,
    pub parent: usize,
    pub size: usize,
    pub is_dir: bool,
}

/// What an entry stands for.
pub struct Node {
    pub name: Seq<char>,
    pub parent: nat,
    pub size: nat,
    pub is_dir: bool,
}

impl View for Entry {
    type V = Node;

    open spec fn view(&self) -> Node {
        Node { name: self.name@, parent: self.parent as nat, size: self.size as nat, is_dir: self.is_dir }
    }
}

pub open spec fn nodes_of(files: Seq<Entry>) -> Seq<Node> {
    files.map_values(|e: Entry| e@)
}

/// The state of a walk: the current directory's id and the table.
pub struct FsState {
    pub cwd: nat,
    pub nodes: Seq<Node>,
}

/// The root is first, every other entry lies in a directory created before it,
/// and directories carry no size of their own.
pub open spec fn table_wf(nodes: Seq<Node>) -> bool {
    &&& nodes.len() >= 1
    &&& nodes[0].is_dir
    &&& nodes[0].parent == 0
    &&& forall|k: int|
        1 <= k < nodes.len() ==> 1 <= #[trigger] nodes[k].parent <= k && nodes[nodes[k].parent - 1].is_dir
    &&& forall|k: int| 0 <= k < nodes.len() && #[trigger] nodes[k].is_dir ==> nodes[k].size == 0
}

pub open spec fn state_wf(s: FsState) -> bool {
    table_wf(s.nodes) && 1 <= s.cwd <= s.nodes.len() && s.nodes[s.cwd - 1].is_dir
}

/// The state before the first line: the root alone, and the walk standing in it.
pub open spec fn initial_state() -> FsState {
    FsState { cwd: 1, nodes: seq![Node { name: "/"@, parent: 0, size: 0, is_dir: true }] }
}

pub open spec fn is_child_dir(nodes: Seq<Node>, k: int, dir: nat, name: Seq<char>) -> bool {
    nodes[k].is_dir && nodes[k].parent == dir && nodes[k].name == name
}

/// The position of the first directory named `name` in directory `dir`, from `from` on.
pub open spec fn first_child_dir(nodes: Seq<Node>, dir: nat, name: Seq<char>, from: int) -> Option<nat>
    decreases nodes.len() - from,
{
    if from < 0 || from >= nodes.len() {
        None
    } else if is_child_dir(nodes, from, dir, name) {
        Some(from as nat)
    } else {
        first_child_dir(nodes, dir, name, from + 1)
    }
}

/// Where `cd path` leads.
pub open spec fn cd_target(s: FsState, path: Seq<char>) -> Result<nat, FsError> {
    if path == "/"@ {
        Ok(1)
    } else if path == ".."@ {
        if s.cwd == 1 {
            Err(FsError::AboveRoot)
        } else {
            Ok(s.nodes[s.cwd - 1].parent)
        }
    } else {
        match first_child_dir(s.nodes, s.cwd, path, 0) {
            Some(k) => Ok(k + 1),
            None => Err(FsError::UnknownDirectory),
        }
    }
}

/// The state after a new entry in the current directory.
pub open spec fn with_entry(s: FsState, name: Seq<char>, size: nat, is_dir: bool) -> Result<FsState, FsError> {
    if s.nodes.len() >= usize::MAX {
        Err(FsError::TooManyEntries)
    } else {
        Ok(FsState { cwd: s.cwd, nodes: s.nodes.push(Node { name, parent: s.cwd, size, is_dir }) })
    }
}

/// The effect of a command, given as the words after `$`: `ls` changes nothing,
/// `cd <target>` moves; words after those are ignored.
pub open spec fn apply_command(s: FsState, args: Seq<Seq<char>>) -> Result<FsState, FsError> {
    if args.len() == 0 {
        Err(FsError::MalformedLine)
    } else if args[0] == "ls"@ {
        Ok(s)
    } else if args[0] == "cd"@ {
        if args.len() < 2 {
            Err(FsError::MalformedLine)
        } else {
            match cd_target(s, args[1]) {
                Ok(d) => Ok(FsState { cwd: d, nodes: s.nodes }),
                Err(e) => Err(e),
            }
        }
    } else {
        Err(FsError::InvalidCommand)
    }
}

/// The effect of one line of the transcript, read as words: `$` and a command,
/// `dir <name>`, or `<size> <name>`; words after those are ignored.
pub open spec fn apply_line(s: FsState, l: Seq<char>) -> Result<FsState, FsError> {
    let w = words(l);
    if w.len() == 0 {
        Err(FsError::MalformedLine)
    } else if w[0] == "$"@ {
        apply_command(s, w.drop_first())
    } else if w.len() < 2 {
        Err(FsError::MalformedLine)
    } else if w[0] == "dir"@ {
        with_entry(s, w[1], 0, true)
    } else {
        match number_at_most(w[0], usize::MAX as nat) {
            Some(v) => with_entry(s, w[1], v, false),
            None => Err(FsError::MalformedLine),
        }
    }
}

/// The state after the lines in order, or the error of the first line that fails.
pub open spec fn run_lines(s: FsState, lines: Seq<Seq<char>>) -> Result<FsState, FsError>
    decreases lines.len(),
{
    if lines.len() == 0 {
        Ok(s)
    } else {
        match run_lines(s, lines.drop_last()) {
            Ok(t) => apply_line(t, lines.last()),
            Err(e) => Err(e),
        }
    }
}

pub open spec fn outcome(r: Result<(), FsError>, s: FsState) -> Result<FsState, FsError> {
    match r {
        Ok(_) => Ok(s),
        Err(e) => Err(e),
    }
}

/// The walk over a transcript: the current directory, the table and the last id given.
pub struct System {
    pub current_dir: usize,
    pub files: Vec<Entry>,
    pub file_id_count: usize,
}

impl View for System {
    type V = FsState;

    open spec fn view(&self) -> FsState {
        FsState { cwd: self.current_dir as nat, nodes: nodes_of(self.files@) }
    }
}

impl System {
    /// Each entry's id is its position plus one, and the last id given is the table's length.
    pub open spec fn wf(&self) -> bool {
        &&& state_wf(self@)
        &&& self.file_id_count == self.files@.len()
        &&& forall|k: int| 0 <= k < self.files@.len() ==> #[trigger] self.files@[k].id == k + 1
    }

    /// A table that holds the root alone, with the walk standing in it.
    pub fn new() -> (r: System)
        ensures
            r.wf(),
            r@ == initial_state(),
    {
        let root = Entry { id: ROOT_ID, name: "/".to_owned(), parent: 0, size: 0, is_dir: true };
        let mut files: Vec<Entry> = Vec::new();
        files.push(root);
        let r = System { current_dir: ROOT_ID, files, file_id_count: 1 };
        assert(r@.nodes =~= initial_state().nodes);
        r
    }

    /// Hands out the next id.
    pub fn get_next_id(&mut self) -> (r: usize)
        requires
            old(self).file_id_count < usize::MAX,
        ensures
            r == old(self).file_id_count + 1,
            final(self).file_id_count == r,
            final(self).current_dir == old(self).current_dir,
            final(self).files == old(self).files,
    {
        self.file_id_count = self.file_id_count + 1;
        self.file_id_count
    }

    fn add_entry(&mut self, name: &str, size: usize, is_dir: bool) -> (r: Result<(), FsError>)
        requires
            old(self).wf(),
            is_dir ==> size == 0,
        ensures
            final(self).wf(),
            outcome(r, final(self)@) == with_entry(old(self)@, name@, size as nat, is_dir),
            r is Err ==> final(self)@ == old(self)@,
    {
        if self.file_id_count == usize::MAX {
            return Err(FsError::TooManyEntries);
        }
        let ghost before = self@;
        let id = self.get_next_id();
        let entry = Entry { id, name: name.to_owned(), parent: self.current_dir, size, is_dir };
        self.files.push(entry);
        proof {
            let ghost want = before.nodes.push(Node { name: name@, parent: before.cwd, size: size as nat, is_dir });
            assert(self@.nodes =~= want);
        }
        Ok(())
    }

    /// Declares a directory named `name` in the current directory.
    pub fn mkdir(&mut self, name: &str) -> (r: Result<(), FsError>)
        requires
            old(self).wf(),
        ensures
            final(self).wf(),
            outcome(r, final(self)@) == with_entry(old(self)@, name@, 0, true),
            r is Err ==> final(self)@ == old(self)@,
    {
        self.add_entry(name, 0, true)
    }

    /// Declares a file named `name` of `size` bytes in the current directory.
    pub fn add_file(&mut self, name: &str, size: usize) -> (r: Result<(), FsError>)
        requires
            old(self).wf(),
        ensures
            final(self).wf(),
            outcome(r, final(self)@) == with_entry(old(self)@, name@, size as nat, false),
            r is Err ==> final(self)@ == old(self)@,
    {
        self.add_entry(name, size, false)
    }

    /// Moves to the root for `/`, to the parent for `..`, else to the first child
    /// directory of that name.
    pub fn cd(&mut self, path: &str) -> (r: Result<(), FsError>)
        requires
            old(self).wf(),
        ensures
            final(self).wf(),
            final(self).files == old(self).files,
            final(self).file_id_count == old(self).file_id_count,
            match cd_target(old(self)@, path@) {
                Ok(d) => r == Ok::<(), FsError>(()) && final(self).current_dir == d,
                Err(e) => r == Err::<(), FsError>(e) && final(self).current_dir == old(self).current_dir,
            },
    {
        let ghost nodes = self@.nodes;
        if same_text(path, "/") {
            self.current_dir = ROOT_ID;
            return Ok(());
        }
        if same_text(path, "..") {
            if self.current_dir == ROOT_ID {
                return Err(FsError::AboveRoot);
            }
            assert(nodes[self.current_dir - 1] == self.files@[self.current_dir - 1]@);
            self.current_dir = self.files[self.current_dir - 1].parent;
            return Ok(());
        }
        let n = self.files.len();
        let mut k: usize = 0;
        while k < n
            invariant
                self.wf(),
                self.files == old(self).files,
                self.file_id_count == old(self).file_id_count,
                self.current_dir == old(self).current_dir,
                path@ != "/"@,
                path@ != ".."@,
                nodes == self@.nodes,
                n == nodes.len(),
                k <= n,
                first_child_dir(nodes, self.current_dir as nat, path@, 0)
                    == first_child_dir(nodes, self.current_dir as nat, path@, k as int),
            decreases n - k,
        {
            let f = &self.files[k];
            assert(nodes[k as int] == f@);
            if f.is_dir && f.parent == self.current_dir && same_text(f.name.as_str(), path) {
                self.current_dir = k + 1;
                return Ok(());
            }
            k = k + 1;
        }
        Err(FsError::UnknownDirectory)
    }
}

/// Follows one command, given as the words after `$`.
pub fn run_command(system: &mut System, args: &[String]) -> (r: Result<(), FsError>)
    requires
        old(system).wf(),
    ensures
        final(system).wf(),
        outcome(r, final(system)@) == apply_command(old(system)@, texts(args@)),
        r is Err ==> final(system)@ == old(system)@,
{
    let ghost w = texts(args@);
    if args.len() == 0 {
        return Err(FsError::MalformedLine);
    }
    assert(w[0] == args@[0]@);
    if same_text(args[0].as_str(), "ls") {
        return Ok(());
    }
    if same_text(args[0].as_str(), "cd") {
        if args.len() < 2 {
            return Err(FsError::MalformedLine);
        }
        assert(w[1] == args@[1]@);
        let r = system.cd(args[1].as_str());
        assert(final(system)@.nodes == old(system)@.nodes);
        return r;
    }
    Err(FsError::InvalidCommand)
}

/// Follows one line of the transcript.
pub fn run_line(system: &mut System, line: &str) -> (r: Result<(), FsError>)
    requires
        old(system).wf(),
    ensures
        final(system).wf(),
        outcome(r, final(system)@) == apply_line(old(system)@, line@),
        r is Err ==> final(system)@ == old(system)@,
{
    let args = split_words(line);
    let ghost w = texts(args@);
    let n = args.len();
    if n == 0 {
        return Err(FsError::MalformedLine);
    }
    assert(w[0] == args@[0]@);
    if same_text(args[0].as_str(), "$") {
        let rest = &args.as_slice()[1..n];
        assert(texts(rest@) =~= w.drop_first());
        return run_command(system, rest);
    }
    if n < 2 {
        return Err(FsError::MalformedLine);
    }
    assert(w[1] == args@[1]@);
    if same_text(args[0].as_str(), "dir") {
        return system.mkdir(args[1].as_str());
    }
    let first = args[0].as_str();
    let len = first.unicode_len();
    assert(first@.subrange(0, len as int) =~= first@);
    match parse_number(first, 0, len) {
        Some(size) => system.add_file(args[1].as_str(), size),
        None => Err(FsError::MalformedLine),
    }
}

/// The recursive size of entry `j`: a file's own size, or for a directory the
/// recursive sizes of its children added up.
pub open spec fn node_total(nodes: Seq<Node>, j: int) -> nat
    decreases nodes.len() - j, 0int,
{
    if 0 <= j < nodes.len() {
        if nodes[j].is_dir {
            children_total(nodes, j + 1, j + 1)
        } else {
            nodes[j].size
        }
    } else {
        0
    }
}

/// The recursive sizes of the entries from position `from` on whose parent is `id`, added up.
pub open spec fn children_total(nodes: Seq<Node>, id: int, from: int) -> nat
    decreases nodes.len() - from, 1int,
{
    if 0 <= from < nodes.len() {
        (if nodes[from].parent == id { node_total(nodes, from) } else { 0 }) + children_total(nodes, id, from + 1)
    } else {
        0
    }
}

/// Every entry's recursive size fits in a `usize`.
pub open spec fn totals_fit(nodes: Seq<Node>) -> bool {
    forall|j: int| 0 <= j < nodes.len() ==> #[trigger] node_total(nodes, j) <= usize::MAX
}

/// `r` is what aggregation gives for the table `files`: each entry's recursive
/// size, or nothing where one of them does not fit.
pub open spec fn aggregates(files: Seq<Entry>, r: Option<Vec<usize>>) -> bool {
    match r {
        Some(v) => totals_fit(nodes_of(files)) && v@.len() == files.len()
            && forall|j: int| 0 <= j < files.len() ==> #[trigger] v@[j] == node_total(nodes_of(files), j),
        None => !totals_fit(nodes_of(files)),
    }
}

proof fn lemma_children_total_shrinks(nodes: Seq<Node>, id: int, lo: int, hi: int)
    requires
        0 <= lo <= hi,
    ensures
        children_total(nodes, id, hi) <= children_total(nodes, id, lo),
    decreases hi - lo,
{
    if lo < hi {
        lemma_children_total_shrinks(nodes, id, lo + 1, hi);
    }
}

/// Computes every entry's recursive size. Children always come after their
/// parent, so one pass from the last entry to the first folds each entry into
/// its parent after all of its own children were folded into it.
pub fn aggregate(files: &Vec<Entry>) -> (r: Option<Vec<usize>>)
    requires
        table_wf(nodes_of(files@)),
    ensures
        aggregates(files@, r),
{
    let ghost nodes = nodes_of(files@);
    let n = files.len();
    let mut acc: Vec<usize> = Vec::new();
    while acc.len() < n
        invariant
            acc.len() <= n,
            forall|d: int| 0 <= d < acc.len() ==> #[trigger] acc@[d] == 0,
        decreases n - acc.len(),
    {
        acc.push(0);
    }
    proof {
        assert forall|d: int| 0 <= d < n implies #[trigger] acc@[d] == children_total(nodes, d + 1, n as int) by {}
    }
    let mut i: usize = n;
    while i > 1
        invariant
            1 <= i <= n,
            n == nodes.len(),
            nodes == nodes_of(files@),
            table_wf(nodes),
            acc.len() == n,
            forall|d: int| 0 <= d < n ==> #[trigger] acc@[d] == children_total(nodes, d + 1, if d < i { i as int } else { d + 1 }),
        decreases i,
    {
        i = i - 1;
        let j = i;
        let f = &files[j];
        assert(nodes[j as int] == f@);
        let value = if f.is_dir { acc[j] } else { f.size };
        assert(value == node_total(nodes, j as int));
        assert(nodes[j as int].parent == f.parent as nat);
        let p = f.parent - 1;
        assert(nodes[p as int].is_dir);
        match acc[p].checked_add(value) {
            Some(sum) => {
                acc.set(p, sum);
                proof {
                    assert forall|d: int| 0 <= d < n implies #[trigger] acc@[d] == children_total(nodes, d + 1, if d < i { i as int } else { d + 1 }) by {
                        if d < j {
                            assert(children_total(nodes, d + 1, j as int) == (if nodes[j as int].parent == d + 1 { node_total(nodes, j as int) } else { 0 }) + children_total(nodes, d + 1, j + 1));
                        }
                    }
                }
            },
            None => {
                proof {
                    assert(children_total(nodes, p + 1, j as int) == node_total(nodes, j as int) + children_total(nodes, p + 1, j + 1));
                    lemma_children_total_shrinks(nodes, p + 1, p + 1, j as int);
                    assert(node_total(nodes, p as int) > usize::MAX);
                }
                return None;
            },
        }
    }
    let mut totals: Vec<usize> = Vec::new();
    let mut k: usize = 0;
    while k < n
        invariant
            k <= n,
            n == nodes.len(),
            nodes == nodes_of(files@),
            table_wf(nodes),
            i == 1,
            acc.len() == n,
            forall|d: int| 0 <= d < n ==> #[trigger] acc@[d] == children_total(nodes, d + 1, if d < i { i as int } else { d + 1 }),
            totals@.len() == k,
            forall|d: int| 0 <= d < k ==> #[trigger] totals@[d] == node_total(nodes, d),
        decreases n - k,
    {
        let f = &files[k];
        assert(nodes[k as int] == f@);
        if f.is_dir {
            totals.push(acc[k]);
        } else {
            totals.push(f.size);
        }
        k = k + 1;
    }
    proof {
        assert forall|j: int| 0 <= j < nodes.len() implies #[trigger] node_total(nodes, j) <= usize::MAX by {
            assert(totals@[j] == node_total(nodes, j));
        }
    }
    Some(totals)
}

/// A directory's recursive size, with its id and its parent's id.
#[derive(Clone, Copy, Debug, PartialEq, Eq, Structural)]
pub struct DirSize {
    pub id: usize,
    pub size: usize,
    pub parent: usize,
}

/// The directories among the first `n` entries, in the order of their ids.
pub open spec fn dir_listing(nodes: Seq<Node>, n: int) -> Seq<DirSize>
    decreases n,
{
    if n <= 0 {
        Seq::empty()
    } else if nodes[n - 1].is_dir {
        dir_listing(nodes, n - 1).push(
            DirSize { id: n as usize, size: node_total(nodes, n - 1) as usize, parent: nodes[n - 1].parent as usize },
        )
    } else {
        dir_listing(nodes, n - 1)
    }
}

pub open spec fn line_views(lines: Seq<String>) -> Seq<Seq<char>> {
    lines.map_values(|l: String| l@)
}

/// `r` is what the transcript `lines` gives: the error of the first line that
/// fails; else every directory with its recursive size, or `SizeOverflow` where
/// one does not fit.
pub open spec fn lists_directories(lines: Seq<Seq<char>>, r: Result<Vec<DirSize>, FsError>) -> bool {
    match run_lines(initial_state(), lines) {
        Err(e) => r == Err::<Vec<DirSize>, FsError>(e),
        Ok(s) => match r {
            Ok(v) => table_wf(s.nodes) && totals_fit(s.nodes) && v@ == dir_listing(s.nodes, s.nodes.len() as int),
            Err(e) => !totals_fit(s.nodes) && e == FsError::SizeOverflow,
        },
    }
}

/// Walks the transcript from the root and lists every directory with its recursive size.
pub fn list_directories(lines: &Vec<String>) -> (r: Result<Vec<DirSize>, FsError>)
    ensures
        lists_directories(line_views(lines@), r),
{
    let ghost views = line_views(lines@);
    let mut system = System::new();
    let mut i: usize = 0;
    while i < lines.len()
        invariant
            i <= lines@.len(),
            views == line_views(lines@),
            system.wf(),
            run_lines(initial_state(), views.subrange(0, i as int)) == Ok::<FsState, FsError>(system@),
        decreases lines.len() - i,
    {
        let step = run_line(&mut system, lines[i].as_str());
        proof {
            assert(views.subrange(0, i + 1).drop_last() =~= views.subrange(0, i as int));
            assert(views.subrange(0, i + 1).last() == lines@[i as int]@);
        }
        if step.is_err() {
            let e = step.unwrap_err();
            proof {
                lemma_run_lines_stops(views, i as int + 1);
            }
            return Err(e);
        }
        i = i + 1;
    }
    assert(views.subrange(0, lines@.len() as int) =~= views);
    let totals = match aggregate(&system.files) {
        Some(t) => t,
        None => return Err(FsError::SizeOverflow),
    };
    let ghost nodes = system@.nodes;
    let mut out: Vec<DirSize> = Vec::new();
    let mut k: usize = 0;
    while k < system.files.len()
        invariant
            k <= nodes.len(),
            nodes == nodes_of(system.files@),
            aggregates(system.files@, Some(totals)),
            out@ == dir_listing(nodes, k as int),
        decreases system.files.len() - k,
    {
        let f = &system.files[k];
        assert(nodes[k as int] == f@);
        if f.is_dir {
            out.push(DirSize { id: k + 1, size: totals[k], parent: f.parent });
        }
        k = k + 1;
    }
    Ok(out)
}

proof fn lemma_run_lines_stops(lines: Seq<Seq<char>>, k: int)
    requires
        0 <= k <= lines.len(),
        run_lines(initial_state(), lines.subrange(0, k)) is Err,
    ensures
        run_lines(initial_state(), lines) == run_lines(initial_state(), lines.subrange(0, k)),
    decreases lines.len() - k,
{
    if k < lines.len() {
        assert(lines.subrange(0, k + 1).drop_last() =~= lines.subrange(0, k));
        lemma_run_lines_stops(lines, k + 1);
    } else {
        assert(lines.subrange(0, k) =~= lines);
    }
}

/// The sizes of the directories of at most `SMALL_DIR_LIMIT`, added up.
pub open spec fn small_dirs_total(ds: Seq<DirSize>) -> nat
    decreases ds.len(),
{
    if ds.len() == 0 {
        0
    } else {
        small_dirs_total(ds.drop_last()) + if ds.last().size <= SMALL_DIR_LIMIT { ds.last().size as nat } else { 0 }
    }
}

/// Adds up the sizes of the directories whose size is at most `SMALL_DIR_LIMIT`
/// (the limit itself included).
pub fn puzzle1(directories: &Vec<DirSize>) -> (r: usize)
    requires
        directories@.len() * SMALL_DIR_LIMIT <= usize::MAX,
    ensures
        r == small_dirs_total(directories@),
{
    let mut total: usize = 0;
    let mut i: usize = 0;
    while i < directories.len()
        invariant
            i <= directories@.len(),
            directories@.len() * SMALL_DIR_LIMIT <= usize::MAX,
            total == small_dirs_total(directories@.subrange(0, i as int)),
            total <= i * SMALL_DIR_LIMIT,
        decreases directories.len() - i,
    {
        let d = directories[i];
        assert(directories@.subrange(0, i + 1).drop_last() =~= directories@.subrange(0, i as int));
        if d.size <= SMALL_DIR_LIMIT {
            assert((i + 1) * SMALL_DIR_LIMIT <= directories@.len() * SMALL_DIR_LIMIT) by (nonlinear_arith)
                requires i + 1 <= directories@.len();
            total = total + d.size;
        }
        i = i + 1;
    }
    assert(directories@.subrange(0, i as int) =~= directories@);
    total
}

/// The free space still missing for the update when the root holds `root_used`.
pub open spec fn needed_space(root_used: nat) -> int {
    REQUIRED_FREE - (DISK_CAPACITY - root_used)
}

/// The size of the smallest directory whose deletion frees enough space for the
/// update; the root, listed first, gives the space in use.
pub fn puzzle2(directories: &Vec<DirSize>) -> (r: usize)
    requires
        directories@.len() > 0,
        directories@[0].id == ROOT_ID,
    ensures
        exists|k: int|
            0 <= k < directories@.len() && #[trigger] directories@[k].size == r
                && r >= needed_space(directories@[0].size as nat),
        forall|k: int|
            0 <= k < directories@.len() && #[trigger] directories@[k].size >= needed_space(directories@[0].size as nat)
                ==> r <= directories@[k].size,
{
    let ghost need = needed_space(directories@[0].size as nat);
    let used = directories[0].size;
    let needed: usize = if used >= DISK_CAPACITY - REQUIRED_FREE {
        used - (DISK_CAPACITY - REQUIRED_FREE)
    } else {
        0
    };
    assert(needed as int == if need > 0 { need } else { 0 });
    let mut best: usize = used;
    let mut i: usize = 1;
    while i < directories.len()
        invariant
            1 <= i <= directories@.len(),
            needed as int == if need > 0 { need } else { 0 },
            need == needed_space(directories@[0].size as nat),
            exists|k: int| 0 <= k < i && #[trigger] directories@[k].size == best && best >= need,
            forall|k: int| 0 <= k < i && #[trigger] directories@[k].size >= need ==> best <= directories@[k].size,
        decreases directories.len() - i,
    {
        let size = directories[i].size;
        if size >= needed && size < best {
            best = size;
        }
        i = i + 1;
    }
    best
}

/// The root's recursive size is the sum of the recursive sizes of the entries
/// directly inside it.
pub proof fn root_size_is_sum_of_children(nodes: Seq<Node>)
    requires
        table_wf(nodes),
    ensures
        node_total(nodes, 0) == children_total(nodes, ROOT_ID as int, 0),
{
}

proof fn lemma_listing_starts_with_root(nodes: Seq<Node>, n: int)
    requires
        table_wf(nodes),
        1 <= n <= nodes.len(),
    ensures
        dir_listing(nodes, n).len() >= 1,
        dir_listing(nodes, n)[0] == (DirSize { id: ROOT_ID, size: node_total(nodes, 0) as usize, parent: 0 }),
    decreases n,
{
    if n > 1 {
        lemma_listing_starts_with_root(nodes, n - 1);
    } else {
        assert(dir_listing(nodes, 0) =~= Seq::<DirSize>::empty());
    }
}

/// Every listing that a transcript gives starts with the root, and the root's
/// size there is the sum of the recursive sizes of the entries directly inside it.
pub proof fn listed_root_is_sum_of_children(lines: Seq<Seq<char>>, v: Vec<DirSize>)
    requires
        lists_directories(lines, Ok(v)),
    ensures
        run_lines(initial_state(), lines) is Ok,
        v@.len() >= 1,
        v@[0].id == ROOT_ID,
        v@[0].parent == 0,
        v@[0].size == children_total(run_lines(initial_state(), lines).unwrap().nodes, ROOT_ID as int, 0),
{
    let nodes = run_lines(initial_state(), lines).unwrap().nodes;
    lemma_listing_starts_with_root(nodes, nodes.len() as int);
    root_size_is_sum_of_children(nodes);
    assert(node_total(nodes, 0) <= usize::MAX);
}

/// Aggregating the same table twice gives the same sizes.
pub proof fn aggregation_is_idempotent(files: Seq<Entry>, a: Option<Vec<usize>>, b: Option<Vec<usize>>)
    requires
        aggregates(files, a),
        aggregates(files, b),
    ensures
        a is Some <==> b is Some,
        a is Some ==> a.unwrap()@ == b.unwrap()@,
{
    if a is Some && b is Some {
        assert(a.unwrap()@ =~= b.unwrap()@);
    }
}

} // verus!
