use vstd::prelude::*;

use crate::manifest::{describe, generate_manifest, manifest_text, record_text, ManifestRecord};
use crate::naming::{fragment_name, get_fragment_name, get_output_filename, lemma_output_names_distinct, output_name};

verus! {

/// Maximum uncompressed bytes per output archive (25 MiB).
pub const MAX_ZIP_SIZE: u64 = 26214400;

/// Size of the chunks in which entry bytes are streamed (64 KiB).
pub const BUFFER_SIZE: usize = 65536;

/// One entry of an output archive as the model sees it.
pub struct Stored {
    pub name: Seq<char>,
    pub dir: bool,
    pub data: Seq<u8>,
}

/// Bytes that an entry counts toward its archive's cap: directories count nothing.
pub open spec fn item_bytes(s: Stored) -> nat {
    if s.dir {
        0
    } else {
        s.data.len()
    }
}

/// Total uncompressed bytes of the entries of one archive.
pub open spec fn stored_bytes(a: Seq<Stored>) -> nat
    decreases a.len(),
{
    if a.len() == 0 {
        0
    } else {
        stored_bytes(a.drop_last()) + item_bytes(a.last())
    }
}

/// The bytes of a run of single-fragment archives, joined in order.
pub open spec fn joined(parts: Seq<Seq<Stored>>) -> Seq<u8>
    decreases parts.len(),
{
    if parts.len() == 0 {
        Seq::empty()
    } else {
        joined(parts.drop_last()) + parts.last()[0].data
    }
}

/// The archives after `chunk` is appended to the last entry of the last archive.
pub open spec fn extend_last(archives: Seq<Seq<Stored>>, chunk: Seq<u8>) -> Seq<Seq<Stored>> {
    let a = archives.last();
    let e = a.last();
    archives.update(
        archives.len() - 1,
        a.update(a.len() - 1, Stored { name: e.name, dir: e.dir, data: e.data + chunk }),
    )
}

/// The archives after `item` is added to the last one.
pub open spec fn add_to_last(archives: Seq<Seq<Stored>>, item: Stored) -> Seq<Seq<Stored>> {
    archives.update(archives.len() - 1, archives.last().push(item))
}

/// Whether archive `i` is kept at the end: it holds an entry, or it is the
/// last one and receives the manifest.
pub open spec fn keeps(archives: Seq<Seq<Stored>>, i: int, manifest: bool) -> bool {
    archives[i].len() > 0 || (manifest && i == archives.len() - 1)
}

/// The names of the kept archives among the first `n`, in index order.
pub open spec fn kept_names(stem: Seq<char>, archives: Seq<Seq<Stored>>, n: nat, manifest: bool) -> Seq<Seq<char>>
    decreases n,
{
    if n == 0 {
        Seq::empty()
    } else if keeps(archives, n - 1, manifest) {
        kept_names(stem, archives, (n - 1) as nat, manifest).push(output_name(stem, n))
    } else {
        kept_names(stem, archives, (n - 1) as nat, manifest)
    }
}

/// The names of the archives among the first `n` that end up empty.
pub open spec fn dropped_names(stem: Seq<char>, archives: Seq<Seq<Stored>>, n: nat, manifest: bool) -> Seq<Seq<char>>
    decreases n,
{
    if n == 0 {
        Seq::empty()
    } else if keeps(archives, n - 1, manifest) {
        dropped_names(stem, archives, (n - 1) as nat, manifest)
    } else {
        dropped_names(stem, archives, (n - 1) as nat, manifest).push(output_name(stem, n))
    }
}

/// What the entry being copied is.
#[derive(PartialEq, Eq, Structural, Clone, Copy, Debug)]
pub enum Stage {
    /// No entry is being copied.
    Idle,
    /// An entry that fits within the cap is copied whole into the open archive.
    Whole,
    /// An oversized entry is cut into fragments, one archive each.
    Fragment,
}

/// Why a run stops.
#[derive(PartialEq, Eq, Structural, Clone, Copy, Debug)]
pub enum SplitError {
    /// An entry's stream delivered more bytes than the entry declared.
    EntryOverrun,
}

proof fn lemma_push_bytes(a: Seq<Stored>, x: Stored)
    ensures
        stored_bytes(a.push(x)) == stored_bytes(a) + item_bytes(x),
{
    assert(a.push(x).drop_last() =~= a);
}

proof fn lemma_update_last_bytes(a: Seq<Stored>, x: Stored)
    requires
        a.len() > 0,
    ensures
        stored_bytes(a.update(a.len() - 1, x)) == stored_bytes(a.drop_last()) + item_bytes(x),
{
    assert(a.update(a.len() - 1, x).drop_last() =~= a.drop_last());
}

proof fn lemma_single_bytes(x: Stored)
    ensures
        stored_bytes(seq![x]) == item_bytes(x),
{
    lemma_push_bytes(Seq::empty(), x);
    assert(Seq::<Stored>::empty().push(x) =~= seq![x]);
}

/// The archive that the caller must open before copying an entry, if any.
pub open spec fn opens_archive(r: Start) -> Option<Seq<char>> {
    match r {
        Start::Directory => None,
        Start::File { next_archive } => match next_archive {
            Some(n) => Some(n@),
            None => None,
        },
        Start::Fragment { archive, part } => Some(archive@),
    }
}

/// Every output archive of a run, the open one included, holds at most the cap
/// in entry bytes; directories count nothing.
pub proof fn lemma_cap_respected(s: Splitter)
    requires
        s.wf(),
    ensures
        forall|i: int| 0 <= i < s.archives().len() ==> stored_bytes(#[trigger] s.archives()[i]) <= MAX_ZIP_SIZE,
{
}

/// While an oversized entry is cut, its fragments stand one per archive in
/// consecutive archives, named `<name>.part001`, `<name>.part002`, ..., each at
/// most the cap; joined in part order they are exactly the bytes received. An
/// entry of more than the cap thus has at least two fragments.
pub proof fn lemma_fragments_rejoin(s: Splitter)
    requires
        s.wf(),
        s.stage() == Stage::Fragment,
    ensures
        ({
            let parts = s.archives().subrange(s.first_part(), s.archives().len() as int);
            &&& parts.len() == s.parts()
            &&& s.parts() >= 1
            &&& joined(parts) == s.stream()
            &&& forall|k: int| 0 <= k < parts.len() ==> {
                &&& (#[trigger] parts[k]).len() == 1
                &&& parts[k][0].name == fragment_name(s.entry_name(), (k + 1) as nat)
                &&& !parts[k][0].dir
                &&& parts[k][0].data.len() <= MAX_ZIP_SIZE
            }
            &&& s.stream().len() > MAX_ZIP_SIZE ==> s.parts() >= 2
        }),
{
    let a = s.archives();
    let parts = a.subrange(s.first_part(), a.len() as int);
    assert forall|k: int| 0 <= k < parts.len() implies {
        &&& (#[trigger] parts[k]).len() == 1
        &&& parts[k][0].name == fragment_name(s.entry_name(), (k + 1) as nat)
        &&& !parts[k][0].dir
        &&& parts[k][0].data.len() <= MAX_ZIP_SIZE
    } by {
        let j = k + s.first_part();
        assert(parts[k] == a[j]);
        assert(a[j] =~= seq![a[j][0]]);
        lemma_single_bytes(a[j][0]);
    }
    if s.parts() == 1 {
        assert(a.last() =~= seq![a.last()[0]]);
        lemma_single_bytes(a.last()[0]);
    }
}

/// While an entry that fits is copied, it stands as the last entry of the open
/// archive, under its own name and with exactly the bytes received.
pub proof fn lemma_whole_entry_verbatim(s: Splitter)
    requires
        s.wf(),
        s.stage() == Stage::Whole,
    ensures
        s.archives().last().len() > 0,
        s.archives().last().last() == (Stored { name: s.entry_name(), dir: false, data: s.stream() }),
{
}

/// A run over a source without entries keeps no archive: its only archive
/// stays empty and is removed, and no manifest is written.
pub proof fn lemma_empty_source(stem: Seq<char>)
    ensures
        kept_names(stem, seq![Seq::<Stored>::empty()], 1, false) == Seq::<Seq<char>>::empty(),
        dropped_names(stem, seq![Seq::<Stored>::empty()], 1, false) == seq![output_name(stem, 1)],
{
    let a = seq![Seq::<Stored>::empty()];
    assert(!keeps(a, 0, false));
    assert(kept_names(stem, a, 0, false) == Seq::<Seq<char>>::empty());
    assert(dropped_names(stem, a, 0, false) == Seq::<Seq<char>>::empty());
    assert(Seq::<Seq<char>>::empty().push(output_name(stem, 1)) =~= seq![output_name(stem, 1)]);
}

/// The archive names of a run are decided by the stem and by what the archives
/// hold: two runs that fill their archives alike name their outputs alike, in
/// the same order, and no name occurs twice.
pub proof fn lemma_names_repeatable(stem: Seq<char>, a: Seq<Seq<Stored>>, b: Seq<Seq<Stored>>, m: bool)
    requires
        a.len() == b.len(),
        forall|i: int| 0 <= i < a.len() ==> (#[trigger] a[i]).len() > 0 <==> b[i].len() > 0,
    ensures
        kept_names(stem, a, a.len(), m) == kept_names(stem, b, b.len(), m),
        forall|i: int, j: int|
            0 <= i < j < kept_names(stem, a, a.len(), m).len() ==> kept_names(stem, a, a.len(), m)[i]
                != kept_names(stem, a, a.len(), m)[j],
{
    lemma_kept_alike(stem, a, b, m, a.len());
    lemma_kept_distinct(stem, a, m, a.len());
}

proof fn lemma_kept_alike(stem: Seq<char>, a: Seq<Seq<Stored>>, b: Seq<Seq<Stored>>, m: bool, n: nat)
    requires
        a.len() == b.len(),
        n <= a.len(),
        forall|i: int| 0 <= i < a.len() ==> (#[trigger] a[i]).len() > 0 <==> b[i].len() > 0,
    ensures
        kept_names(stem, a, n, m) == kept_names(stem, b, n, m),
    decreases n,
{
    if n > 0 {
        lemma_kept_alike(stem, a, b, m, (n - 1) as nat);
        assert(keeps(a, n - 1, m) == keeps(b, n - 1, m));
    }
}

proof fn lemma_kept_distinct(stem: Seq<char>, a: Seq<Seq<Stored>>, m: bool, n: nat)
    ensures
        forall|i: int, j: int|
            0 <= i < j < kept_names(stem, a, n, m).len() ==> kept_names(stem, a, n, m)[i]
                != kept_names(stem, a, n, m)[j],
        forall|i: int, x: nat|
            0 <= i < kept_names(stem, a, n, m).len() && x > n ==> #[trigger] kept_names(stem, a, n, m)[i]
                != #[trigger] output_name(stem, x),
    decreases n,
{
    if n > 0 {
        let prev = kept_names(stem, a, (n - 1) as nat, m);
        let cur = kept_names(stem, a, n, m);
        lemma_kept_distinct(stem, a, m, (n - 1) as nat);
        if keeps(a, n - 1, m) {
            assert(cur == prev.push(output_name(stem, n)));
            assert forall|i: int, x: nat| 0 <= i < cur.len() && x > n implies #[trigger] cur[i]
                != #[trigger] output_name(stem, x) by {
                if i == prev.len() {
                    lemma_output_names_distinct(stem, n, x);
                } else {
                    assert(cur[i] == prev[i]);
                }
            }
            assert forall|i: int, j: int| 0 <= i < j < cur.len() implies cur[i] != cur[j] by {
                if j == prev.len() {
                    assert(cur[i] == prev[i]);
                    assert(prev[i] != output_name(stem, n));
                } else {
                    assert(cur[i] == prev[i]);
                    assert(cur[j] == prev[j]);
                }
            }
        } else {
            assert(cur == prev);
        }
    }
}

/// What to do before copying an entry's bytes.
pub enum Start {
    /// Add a directory placeholder to the open archive; no bytes follow.
    Directory,
    /// Copy the entry whole; when a name is given, finish the open archive and
    /// open the archive of that name first.
    File { next_archive: Option<String> },
    /// Finish the open archive, open `archive`, and start the fragment entry `part` in it.
    Fragment { archive: String, part: String },
}

/// What to do with a chunk of the entry being copied.
pub enum Step {
    /// Write the chunk into the entry that is open.
    Write,
    /// Finish the open archive, open `archive`, start the fragment entry
    /// `part` in it, and write the chunk there.
    NextPart { archive: String, part: String },
}

/// What a run hands back to its caller.
pub struct SplitResult {
    /// File names of the kept output archives, in creation order.
    pub output_files: Vec<String>,
    /// How many source entries were processed.
    pub total_files_processed: usize,
    /// How many entries were cut into fragments.
    pub files_split: usize,
}

/// The end of a run: the manifest to add to the open archive, the result,
/// and the output archives that stayed empty and are to be removed.
pub struct Finished {
    /// The manifest text, present when at least one entry was fragmented.
    pub manifest: Option<String>,
    /// What the run produced.
    pub result: SplitResult,
    /// File names of the output archives that hold nothing.
    pub discarded: Vec<String>,
}

/// The decisions of one split run: which output archive each entry and each
/// chunk goes to, when an archive is rotated, and how oversized entries are cut.
pub struct Splitter {
    stem: String,
    index: usize,
    current_size: u64,
    stage: Stage,
    name: String,
    declared: u64,
    copied: u64,
    part: usize,
    processed: usize,
    records: Vec<String>,
    filled: Vec<bool>,
    archives: Ghost<Seq<Seq<Stored>>>,
    stream: Ghost<Seq<u8>>,
    first: Ghost<int>,
}

impl Splitter {
    /// Contents of every output archive opened so far, the open one last.
    pub closed spec fn archives(self) -> Seq<Seq<Stored>> {
        self.archives@
    }

    /// The bytes of the entry being copied, received so far.
    pub closed spec fn stream(self) -> Seq<u8> {
        self.stream@
    }

    /// Whether an entry is being copied, and how.
    pub closed spec fn stage(self) -> Stage {
        self.stage
    }

    /// The stem that output archive names start with.
    pub closed spec fn stem(self) -> Seq<char> {
        self.stem@
    }

    /// Name of the entry being copied.
    pub closed spec fn entry_name(self) -> Seq<char> {
        self.name@
    }

    /// Declared size of the entry being copied.
    pub closed spec fn declared(self) -> nat {
        self.declared as nat
    }

    /// Position in `archives()` of the first fragment of the entry being cut.
    pub closed spec fn first_part(self) -> int {
        self.first@
    }

    /// Number of fragments of the entry being cut.
    pub closed spec fn parts(self) -> nat {
        self.part as nat
    }

    /// Number of source entries begun so far.
    pub closed spec fn processed(self) -> nat {
        self.processed as nat
    }

    /// The manifest's summary lines, one per fragmented entry.
    pub closed spec fn lines(self) -> Seq<Seq<char>> {
        self.records@.map_values(|r: String| r@)
    }

    /// Internal consistency of a run.
    pub closed spec fn wf(self) -> bool {
        let a = self.archives@;
        &&& self.index as nat == a.len()
        &&& a.len() >= 1
        &&& self.filled@.len() == a.len()
        &&& forall|i: int| 0 <= i < a.len() ==> self.filled@[i] == ((#[trigger] a[i]).len() > 0)
        &&& forall|i: int| 0 <= i < a.len() ==> stored_bytes(#[trigger] a[i]) <= MAX_ZIP_SIZE
        &&& self.current_size as nat == stored_bytes(a.last())
        &&& self.stage == Stage::Whole ==> {
            &&& a.last().len() > 0
            &&& a.last().last() == Stored { name: self.name@, dir: false, data: self.stream@ }
            &&& self.copied as nat == self.stream@.len()
            &&& self.copied <= self.declared <= MAX_ZIP_SIZE
            &&& self.current_size + self.declared - self.copied <= MAX_ZIP_SIZE
        }
        &&& self.stage == Stage::Fragment ==> {
            &&& 0 <= self.first@ < a.len()
            &&& self.part as int == a.len() - self.first@
            &&& self.part >= 1
            &&& self.declared > MAX_ZIP_SIZE
            &&& forall|k: int| self.first@ <= k < a.len() ==> {
                &&& (#[trigger] a[k]).len() == 1
                &&& a[k][0].name == fragment_name(self.name@, (k - self.first@ + 1) as nat)
                &&& !a[k][0].dir
            }
            &&& joined(a.subrange(self.first@, a.len() as int)) == self.stream@
            &&& self.part == 1 ==> self.stream@.len() == self.current_size
        }
    }

    /// Starts a run whose output archives are named `<stem><index>.zip`; the
    /// caller opens the first one, named by `first_archive`.
    pub fn new(stem: &str) -> (r: Splitter)
        ensures
            r.wf(),
            r.stem() == stem@,
            r.archives() == seq![Seq::<Stored>::empty()],
            r.stage() == Stage::Idle,
            r.processed() == 0,
            r.lines().len() == 0,
    {
        let mut filled: Vec<bool> = Vec::new();
        filled.push(false);
        let ghost start = seq![Seq::<Stored>::empty()];
        let r = Splitter {
            stem: stem.to_owned(),
            index: 1,
            current_size: 0,
            stage: Stage::Idle,
            name: String::new(),
            declared: 0,
            copied: 0,
            part: 0,
            processed: 0,
            records: Vec::new(),
            filled,
            archives: Ghost(start),
            stream: Ghost(Seq::<u8>::empty()),
            first: Ghost(0),
        };
        assert(r.lines() =~= Seq::<Seq<char>>::empty());
        r
    }

    /// Name of the first output archive.
    pub fn first_archive(&self) -> (r: String)
        ensures
            r@ == output_name(self.stem(), 1),
    {
        get_output_filename(self.stem.as_str(), 1)
    }

    /// Decides where the next source entry goes. A directory is a placeholder in
    /// the open archive. An entry over the cap is cut into fragments, starting in
    /// a fresh archive. Any other entry goes whole into the open archive, which is
    /// rotated first when it holds bytes and the entry would push it over the cap.
    pub fn begin_entry(&mut self, name: String, size: u64, is_dir: bool) -> (r: Start)
        requires
            old(self).wf(),
            old(self).stage() == Stage::Idle,
            old(self).archives().len() < usize::MAX,
            old(self).processed() < usize::MAX,
        ensures
            final(self).wf(),
            final(self).stem() == old(self).stem(),
            final(self).processed() == old(self).processed() + 1,
            final(self).lines() == old(self).lines(),
            final(self).entry_name() == name@,
            final(self).declared() == size,
            final(self).stream() == Seq::<u8>::empty(),
            is_dir ==> {
                &&& r == Start::Directory
                &&& final(self).stage() == Stage::Idle
                &&& final(self).archives() == add_to_last(
                    old(self).archives(),
                    Stored { name: name@, dir: true, data: Seq::empty() },
                )
            },
            !is_dir && size > MAX_ZIP_SIZE ==> {
                &&& final(self).stage() == Stage::Fragment
                &&& final(self).archives() == old(self).archives().push(
                    seq![Stored { name: fragment_name(name@, 1), dir: false, data: Seq::empty() }],
                )
                &&& final(self).first_part() == old(self).archives().len()
                &&& final(self).parts() == 1
                &&& match r {
                    Start::Fragment { archive, part } => {
                        &&& archive@ == output_name(old(self).stem(), old(self).archives().len() + 1)
                        &&& part@ == fragment_name(name@, 1)
                    },
                    _ => false,
                }
            },
            !is_dir && size <= MAX_ZIP_SIZE ==> {
                let used = stored_bytes(old(self).archives().last());
                let rotate = used > 0 && used + size > MAX_ZIP_SIZE;
                let item = Stored { name: name@, dir: false, data: Seq::empty() };
                &&& final(self).stage() == Stage::Whole
                &&& r is File
                &&& rotate ==> final(self).archives() == old(self).archives().push(seq![item])
                    && opens_archive(r) == Some(output_name(old(self).stem(), old(self).archives().len() + 1))
                &&& !rotate ==> final(self).archives() == add_to_last(old(self).archives(), item)
                    && opens_archive(r) == None::<Seq<char>>
            },
    {
        let ghost a = self.archives@;
        self.processed = self.processed + 1;
        self.stream = Ghost(Seq::empty());
        self.declared = size;
        self.copied = 0;
        if is_dir {
            let ghost item = Stored { name: name@, dir: true, data: Seq::empty() };
            self.name = name;
            self.archives = Ghost(add_to_last(a, item));
            let last = self.index - 1;
            self.filled.set(last, true);
            proof {
                lemma_push_bytes(a.last(), item);
                assert(self.archives@.last() == a.last().push(item));
            }
            Start::Directory
        } else if size > MAX_ZIP_SIZE {
            let part = get_fragment_name(name.as_str(), 1);
            let ghost item = Stored { name: part@, dir: false, data: Seq::empty() };
            self.name = name;
            self.archives = Ghost(a.push(seq![item]));
            self.first = Ghost(a.len() as int);
            self.index = self.index + 1;
            self.filled.push(true);
            self.part = 1;
            self.current_size = 0;
            self.stage = Stage::Fragment;
            let archive = get_output_filename(self.stem.as_str(), self.index);
            proof {
                lemma_single_bytes(item);
                let sub = self.archives@.subrange(self.first@, self.archives@.len() as int);
                assert(sub =~= seq![seq![item]]);
                assert(sub.drop_last() =~= Seq::<Seq<Stored>>::empty());
                assert(joined(Seq::<Seq<Stored>>::empty()) == Seq::<u8>::empty());
                assert(joined(sub) =~= Seq::<u8>::empty());
            }
            Start::Fragment { archive, part }
        } else {
            let ghost item = Stored { name: name@, dir: false, data: Seq::empty() };
            self.name = name;
            self.stage = Stage::Whole;
            if self.current_size > 0 && self.current_size + size > MAX_ZIP_SIZE {
                self.archives = Ghost(a.push(seq![item]));
                self.index = self.index + 1;
                self.filled.push(true);
                self.current_size = 0;
                proof {
                    lemma_single_bytes(item);
                }
                let archive = get_output_filename(self.stem.as_str(), self.index);
                Start::File { next_archive: Some(archive) }
            } else {
                self.archives = Ghost(add_to_last(a, item));
                let last = self.index - 1;
                self.filled.set(last, true);
                proof {
                    lemma_push_bytes(a.last(), item);
                    assert(self.archives@.last() == a.last().push(item));
                }
                Start::File { next_archive: None }
            }
        }
    }

    /// Decides where the next chunk of the entry being copied goes. A whole entry
    /// takes it into its open entry, unless the stream runs past the declared
    /// size. A fragmented entry takes it into the open fragment, or, when that
    /// would push the fragment over the cap, into a new fragment in a fresh archive.
    pub fn on_chunk(&mut self, chunk: &[u8]) -> (r: Result<Step, SplitError>)
        requires
            old(self).wf(),
            old(self).stage() != Stage::Idle,
            0 < chunk@.len() <= BUFFER_SIZE,
            old(self).archives().len() < usize::MAX,
        ensures
            old(self).stage() == Stage::Whole && old(self).stream().len() + chunk@.len() > old(self).declared()
                ==> r == Err::<Step, SplitError>(SplitError::EntryOverrun) && *final(self) == *old(self),
            r is Ok ==> {
                &&& final(self).wf()
                &&& final(self).stage() == old(self).stage()
                &&& final(self).stem() == old(self).stem()
                &&& final(self).processed() == old(self).processed()
                &&& final(self).lines() == old(self).lines()
                &&& final(self).entry_name() == old(self).entry_name()
                &&& final(self).declared() == old(self).declared()
                &&& final(self).first_part() == old(self).first_part()
                &&& final(self).stream() == old(self).stream() + chunk@
            },
            old(self).stage() == Stage::Whole && old(self).stream().len() + chunk@.len() <= old(self).declared() ==> {
                &&& r == Ok::<Step, SplitError>(Step::Write)
                &&& final(self).archives() == extend_last(old(self).archives(), chunk@)
            },
            old(self).stage() == Stage::Fragment ==> {
                let rotate = stored_bytes(old(self).archives().last()) + chunk@.len() > MAX_ZIP_SIZE;
                &&& r is Ok
                &&& rotate ==> {
                    let part = fragment_name(old(self).entry_name(), old(self).parts() + 1);
                    &&& final(self).archives() == old(self).archives().push(
                        seq![Stored { name: part, dir: false, data: chunk@ }],
                    )
                    &&& final(self).parts() == old(self).parts() + 1
                    &&& match r {
                        Ok(Step::NextPart { archive, part: p }) => {
                            &&& archive@ == output_name(old(self).stem(), old(self).archives().len() + 1)
                            &&& p@ == part
                        },
                        _ => false,
                    }
                }
                &&& !rotate ==> {
                    &&& r == Ok::<Step, SplitError>(Step::Write)
                    &&& final(self).archives() == extend_last(old(self).archives(), chunk@)
                    &&& final(self).parts() == old(self).parts()
                }
            },
    {
        let ghost a = self.archives@;
        let ghost c = chunk@;
        let n = chunk.len() as u64;
        if self.stage == Stage::Whole {
            if n > self.declared - self.copied {
                return Err(SplitError::EntryOverrun);
            }
            let ghost e = a.last().last();
            let ghost e2 = Stored { name: e.name, dir: e.dir, data: e.data + c };
            self.copied = self.copied + n;
            self.current_size = self.current_size + n;
            self.stream = Ghost(self.stream@ + c);
            self.archives = Ghost(extend_last(a, c));
            proof {
                lemma_update_last_bytes(a.last(), e2);
                lemma_update_last_bytes(a.last(), e);
                assert(a.last().update(a.last().len() - 1, e) =~= a.last());
                assert(self.archives@.last() == a.last().update(a.last().len() - 1, e2));
            }
            Ok(Step::Write)
        } else {
            let ghost first = self.first@;
            let ghost sub = a.subrange(first, a.len() as int);
            proof {
                assert(a[a.len() - 1].len() == 1);
            }
            if self.current_size + n > MAX_ZIP_SIZE {
                self.index = self.index + 1;
                self.part = self.part + 1;
                let archive = get_output_filename(self.stem.as_str(), self.index);
                let part = get_fragment_name(self.name.as_str(), self.part);
                let ghost item = Stored { name: part@, dir: false, data: c };
                self.archives = Ghost(a.push(seq![item]));
                self.filled.push(true);
                self.current_size = n;
                self.stream = Ghost(self.stream@ + c);
                proof {
                    lemma_single_bytes(item);
                    let sub2 = self.archives@.subrange(first, self.archives@.len() as int);
                    assert(sub2 =~= sub.push(seq![item]));
                    assert(sub2.drop_last() =~= sub);
                    assert(joined(sub2) == joined(sub) + c);
                    let a2 = self.archives@;
                    assert forall|k: int| first <= k < a2.len() implies {
                        &&& (#[trigger] a2[k]).len() == 1
                        &&& a2[k][0].name == fragment_name(self.name@, (k - first + 1) as nat)
                        &&& !a2[k][0].dir
                    } by {
                        if k < a.len() {
                            assert(a2[k] == a[k]);
                        }
                    }
                }
                Ok(Step::NextPart { archive, part })
            } else {
                let ghost e = a.last().last();
                let ghost e2 = Stored { name: e.name, dir: e.dir, data: e.data + c };
                self.current_size = self.current_size + n;
                self.stream = Ghost(self.stream@ + c);
                self.archives = Ghost(extend_last(a, c));
                proof {
                    lemma_update_last_bytes(a.last(), e2);
                    lemma_update_last_bytes(a.last(), e);
                    assert(a.last().update(a.last().len() - 1, e) =~= a.last());
                    let a2 = self.archives@;
                    assert(a2.last() == a.last().update(a.last().len() - 1, e2));
                    let sub2 = a2.subrange(first, a2.len() as int);
                    assert(sub2.drop_last() =~= sub.drop_last());
                    assert(sub2.last() =~= seq![e2]);
                    assert(sub.last() =~= seq![e]);
                    assert(joined(sub2) =~= joined(sub) + c);
                    assert forall|k: int| first <= k < a2.len() implies {
                        &&& (#[trigger] a2[k]).len() == 1
                        &&& a2[k][0].name == fragment_name(self.name@, (k - first + 1) as nat)
                        &&& !a2[k][0].dir
                    } by {
                        if k < a.len() - 1 {
                            assert(a2[k] == a[k]);
                        }
                    }
                }
                Ok(Step::Write)
            }
        }
    }

    /// Closes the entry being copied. After a fragmented entry the manifest gains
    /// its summary line and a fresh archive is opened, whose name is returned, so
    /// that later entries never share an archive with a fragment.
    pub fn end_entry(&mut self) -> (r: Option<String>)
        requires
            old(self).wf(),
            old(self).stage() != Stage::Idle,
            old(self).archives().len() < usize::MAX,
        ensures
            final(self).wf(),
            final(self).stage() == Stage::Idle,
            final(self).stem() == old(self).stem(),
            final(self).processed() == old(self).processed(),
            old(self).stage() == Stage::Whole ==> {
                &&& r == None::<String>
                &&& final(self).archives() == old(self).archives()
                &&& final(self).lines() == old(self).lines()
            },
            old(self).stage() == Stage::Fragment ==> {
                &&& final(self).archives() == old(self).archives().push(Seq::empty())
                &&& final(self).lines() == old(self).lines().push(
                    record_text(old(self).entry_name(), old(self).parts(), MAX_ZIP_SIZE as nat, old(self).declared()),
                )
                &&& match r {
                    Some(n) => n@ == output_name(old(self).stem(), old(self).archives().len() + 1),
                    None => false,
                }
            },
    {
        let ghost a = self.archives@;
        if self.stage == Stage::Whole {
            self.stage = Stage::Idle;
            None
        } else {
            let record = ManifestRecord {
                name: self.name.clone(),
                parts: self.part,
                cap: MAX_ZIP_SIZE,
                size: self.declared,
            };
            let line = describe(&record);
            let ghost before = self.records@;
            self.records.push(line);
            proof {
                assert(self.records@.map_values(|s: String| s@) =~= before.map_values(|s: String| s@).push(line@));
                assert(record.name@ == self.name@);
            }
            self.stage = Stage::Idle;
            self.index = self.index + 1;
            self.filled.push(false);
            self.current_size = 0;
            let ghost empty = Seq::<Stored>::empty();
            self.archives = Ghost(a.push(empty));
            proof {
                assert(stored_bytes(empty) == 0);
                let a2 = self.archives@;
                assert forall|i: int| 0 <= i < a2.len() implies stored_bytes(#[trigger] a2[i]) <= MAX_ZIP_SIZE by {
                    if i < a.len() {
                        assert(a2[i] == a[i]);
                    }
                }
            }
            Some(get_output_filename(self.stem.as_str(), self.index))
        }
    }

    /// Ends the run: the manifest text when any entry was fragmented (to be
    /// written into the open archive before it is finished), the names of the
    /// archives kept, in order, and those that stayed empty and are removed.
    pub fn finish(self) -> (r: Finished)
        requires
            self.wf(),
            self.stage() == Stage::Idle,
        ensures
            ({
                let m = self.lines().len() > 0;
                let n = self.archives().len();
                &&& match r.manifest {
                    Some(t) => m && t@ == manifest_text(self.lines()),
                    None => !m,
                }
                &&& r.result.output_files@.map_values(|s: String| s@) == kept_names(self.stem(), self.archives(), n, m)
                &&& r.discarded@.map_values(|s: String| s@) == dropped_names(self.stem(), self.archives(), n, m)
                &&& r.result.total_files_processed == self.processed()
                &&& r.result.files_split == self.lines().len()
            }),
    {
        let ghost a = self.archives@;
        let ghost m = self.lines().len() > 0;
        let has_manifest = self.records.len() > 0;
        let manifest = if has_manifest {
            Some(generate_manifest(self.records.as_slice()))
        } else {
            None
        };
        let mut kept: Vec<String> = Vec::new();
        let mut discarded: Vec<String> = Vec::new();
        let mut i: usize = 0;
        while i < self.index
            invariant
                self.wf(),
                a == self.archives@,
                m == has_manifest,
                i <= self.index,
                kept@.map_values(|s: String| s@) == kept_names(self.stem@, a, i as nat, m),
                discarded@.map_values(|s: String| s@) == dropped_names(self.stem@, a, i as nat, m),
            decreases self.index - i,
        {
            let name = get_output_filename(self.stem.as_str(), i + 1);
            let ghost k0 = kept@;
            let ghost d0 = discarded@;
            if self.filled[i] || (has_manifest && i + 1 == self.index) {
                kept.push(name);
                assert(kept@.map_values(|s: String| s@) =~= k0.map_values(|s: String| s@).push(name@));
            } else {
                discarded.push(name);
                assert(discarded@.map_values(|s: String| s@) =~= d0.map_values(|s: String| s@).push(name@));
            }
            i = i + 1;
        }
        let files_split = self.records.len();
        proof {
            assert(self.records@.map_values(|s: String| s@).len() == self.records@.len());
        }
        Finished {
            manifest,
            result: SplitResult { output_files: kept, total_files_processed: self.processed, files_split },
            discarded,
        }
    }

    /// Number of output archives opened so far.
    pub fn archive_count(&self) -> (r: usize)
        requires
            self.wf(),
        ensures
            r == self.archives().len(),
    {
        self.index
    }

    /// Number of source entries begun so far.
    pub fn entries_processed(&self) -> (r: usize)
        ensures
            r == self.processed(),
    {
        self.processed
    }
}

} // verus!
