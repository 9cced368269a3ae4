//! A small directory-listing library. Filesystem entries are modeled as
//! plain values (path, metadata snapshot, display name, normalized sort key),
//! collected into an ordered collection, optionally stripped of hidden
//! entries, and rendered either as a compact name listing or as a long,
//! column-aligned report.
//!
//! Enumeration itself (reading a directory, stat-ing a path) is a capability
//! of the surrounding program: it hands the library a [`ScanOutcome`] of
//! plain values, and the library does everything that follows.
use vstd::prelude::*;
use vstd::string::*;

pub mod error;
pub mod order;
pub mod sys;
pub mod util;

pub use error::Error;
use order::pair_le;
use sys::{lower_of, perm_chars};
use util::{hidden_name, num_digits, padded_dec};

verus! {

broadcast use vstd::seq_lib::group_to_multiset_ensures, vstd::multiset::group_multiset_axioms;

/// The classification of one filesystem entry; device files, sockets, FIFOs
/// and everything else fall under `Unk`.
#[derive(Clone, Copy, PartialEq, Eq, Structural, Debug)]
pub enum FileType {
    File,
    Dir,
    Sym,
    Unk,
}

impl FileType {
    /// The single type-specifier character that opens a long-format line.
    pub open spec fn glyph(self) -> char {
        match self {
            FileType::File => '-',
            FileType::Dir => 'd',
            FileType::Sym => 'l',
            FileType::Unk => '?',
        }
    }

    /// The type specifier as a string.
    pub fn glyph_str(&self) -> (r: &'static str)
        ensures
            r@ =~= seq![self.glyph()],
    {
        proof {
            reveal_strlit("-");
            reveal_strlit("d");
            reveal_strlit("l");
            reveal_strlit("?");
        }
        match self {
            FileType::File => "-",
            FileType::Dir => "d",
            FileType::Sym => "l",
            FileType::Unk => "?",
        }
    }
}

/// An immutable snapshot of filesystem metadata, captured once at enumeration
/// time and never re-queried.
#[derive(Clone, Copy, PartialEq, Eq, Structural, Debug)]
pub struct Metadata {
    /// The entry's classification.
    pub file_type: FileType,
    /// The raw mode; only the low nine bits are ever interpreted.
    pub mode: u32,
    /// The hard-link count.
    pub nlink: u64,
    /// The owning user id.
    pub uid: u32,
    /// The owning group id.
    pub gid: u32,
    /// The byte size.
    pub size: u64,
    /// Last modification, in seconds after the epoch.
    pub mtime: i64,
}

/// One discovered path together with its metadata snapshot, as the
/// enumeration capability hands it over.
pub struct RawEntry {
    pub path: String,
    pub metadata: Metadata,
}

/// The final component of a path: the suffix after the last `/`, possibly
/// empty.
pub open spec fn base_name(p: Seq<char>) -> Seq<char>
    decreases p.len(),
{
    if p.len() == 0 {
        p
    } else if p.last() == '/' {
        Seq::empty()
    } else {
        base_name(p.drop_last()).push(p.last())
    }
}

/// The normalized sort key of a display name: its lowercase form, with the
/// single leading dot of a hidden name stripped first.
pub open spec fn normal_of(name: Seq<char>) -> Seq<char> {
    if hidden_name(name) {
        lower_of(name.skip(1))
    } else {
        lower_of(name)
    }
}

/// If no `/` occurs at or after position `i`, and `i` is either the start or
/// just after a `/`, the base name is exactly the suffix from `i`.
proof fn lemma_base_name_suffix(p: Seq<char>, i: int)
    requires
        0 <= i <= p.len(),
        forall|j: int| i <= j < p.len() ==> p[j] != '/',
        i > 0 ==> p[i - 1] == '/',
    ensures
        base_name(p) == p.skip(i),
    decreases p.len(),
{
    if i == p.len() {
        if p.len() > 0 {
            assert(p.skip(i) =~= Seq::<char>::empty());
        } else {
            assert(p.skip(i) =~= p);
        }
    } else {
        assert(p.last() != '/');
        lemma_base_name_suffix(p.drop_last(), i);
        assert(p.drop_last().skip(i).push(p.last()) =~= p.skip(i));
    }
}

/// One filesystem entry: its path, its metadata snapshot, its display name
/// (the final path component) and its normalized sort key.
#[derive(Debug)]
pub struct File {
    pub pathbuf: String,
    pub metadata: Metadata,
    pub file_name: String,
    pub fname_nrml: String,
}

impl File {
    /// The display name is the path's nonempty final component, and the sort
    /// key is its normalized form; ordering and rendering rely on this.
    pub open spec fn wf(self) -> bool {
        &&& self.file_name@ == base_name(self.pathbuf@)
        &&& self.file_name@.len() > 0
        &&& self.fname_nrml@ == normal_of(self.file_name@)
    }

    /// Builds the entry for `pathbuf` from its metadata snapshot; a path
    /// without a final component is rejected.
    pub fn new(pathbuf: String, metadata: Metadata) -> (r: Result<File, Error>)
        ensures
            base_name(pathbuf@).len() > 0 ==> (r matches Ok(f) && f.wf() && f.pathbuf@ == pathbuf@
                && f.metadata == metadata && f.file_name@ == base_name(pathbuf@)),
            base_name(pathbuf@).len() == 0 ==> (r matches Err(e) && e matches Error::InvalidName(p)
                && p@ == pathbuf@),
    {
        let len = pathbuf.as_str().unicode_len();
        let mut i: usize = len;
        while i > 0 && pathbuf.as_str().get_char(i - 1) != '/'
            invariant
                i <= len,
                len == pathbuf@.len(),
                forall|j: int| i <= j < len ==> pathbuf@[j] != '/',
            decreases i,
        {
            i = i - 1;
        }
        proof {
            lemma_base_name_suffix(pathbuf@, i as int);
        }
        if i == len {
            proof {
                assert(pathbuf@.skip(len as int).len() == 0);
            }
            Err(Error::InvalidName(pathbuf))
        } else {
            let name_slice = pathbuf.as_str().substring_char(i, len);
            let file_name = name_slice.to_owned();
            let fname_nrml = if util::is_hidden(name_slice) {
                let rest = name_slice.substring_char(1, len - i);
                proof {
                    assert(name_slice@.subrange(1, name_slice@.len() as int) =~= name_slice@.skip(
                        1,
                    ));
                }
                sys::lowercase(rest)
            } else {
                sys::lowercase(name_slice)
            };
            Ok(File { pathbuf, metadata, file_name, fname_nrml })
        }
    }
}

impl PartialEq for File {
    /// Equality and identity of entries are defined by path alone.
    fn eq(&self, other: &File) -> (r: bool) {
        self.pathbuf == other.pathbuf
    }
}

impl Eq for File {

}

impl vstd::std_specs::cmp::PartialEqSpecImpl for File {
    open spec fn obeys_eq_spec() -> bool {
        true
    }

    open spec fn eq_spec(&self, other: &File) -> bool {
        self.pathbuf@ == other.pathbuf@
    }
}

/// The order of the listing: entries are compared by normalized sort key,
/// ties broken by path.
pub open spec fn entry_le(a: File, b: File) -> bool {
    pair_le(a.fname_nrml@, a.pathbuf@, b.fname_nrml@, b.pathbuf@)
}

/// The sequence is ascending under [`entry_le`].
pub open spec fn entries_sorted(s: Seq<File>) -> bool {
    forall|i: int, j: int| 0 <= i < j < s.len() ==> entry_le(s[i], s[j])
}

/// Of two entries, one always sorts no later than the other.
pub proof fn lemma_entry_le_total(a: File, b: File)
    ensures
        entry_le(a, b) || entry_le(b, a),
{
    order::lemma_pair_le_total(a.fname_nrml@, a.pathbuf@, b.fname_nrml@, b.pathbuf@);
}

/// The listing order is transitive.
pub proof fn lemma_entry_le_transitive(a: File, b: File, c: File)
    requires
        entry_le(a, b),
        entry_le(b, c),
    ensures
        entry_le(a, c),
{
    order::lemma_pair_le_transitive(
        a.fname_nrml@,
        a.pathbuf@,
        b.fname_nrml@,
        b.pathbuf@,
        c.fname_nrml@,
        c.pathbuf@,
    );
}

/// Two entries that each sort no later than the other share their sort key
/// and their path.
pub proof fn lemma_entry_le_antisymmetric(a: File, b: File)
    requires
        entry_le(a, b),
        entry_le(b, a),
    ensures
        a.fname_nrml@ == b.fname_nrml@,
        a.pathbuf@ == b.pathbuf@,
{
    if a.fname_nrml@ != b.fname_nrml@ {
        order::lemma_lex_le_antisymmetric(a.fname_nrml@, b.fname_nrml@);
    } else {
        order::lemma_lex_le_antisymmetric(a.pathbuf@, b.pathbuf@);
    }
}

/// Executable decision of [`entry_le`].
fn entry_le_exec(a: &File, b: &File) -> (r: bool)
    ensures
        r == entry_le(*a, *b),
{
    if order::str_le(a.fname_nrml.as_str(), b.fname_nrml.as_str()) {
        if order::str_le(b.fname_nrml.as_str(), a.fname_nrml.as_str()) {
            proof {
                order::lemma_lex_le_antisymmetric(a.fname_nrml@, b.fname_nrml@);
            }
            order::str_le(a.pathbuf.as_str(), b.pathbuf.as_str())
        } else {
            proof {
                order::lemma_lex_le_reflexive(a.fname_nrml@);
            }
            true
        }
    } else {
        proof {
            order::lemma_lex_le_reflexive(a.fname_nrml@);
        }
        false
    }
}

/// Sorts entries ascending under [`entry_le`]; the result is a permutation
/// of the input.
pub fn sort_entries(v: Vec<File>) -> (r: Vec<File>)
    ensures
        entries_sorted(r@),
        r@.to_multiset() == v@.to_multiset(),
        r@.len() == v@.len(),
{
    let mut rest = v;
    let mut out: Vec<File> = Vec::new();
    proof {
        assert forall|e: File| out@.to_multiset().count(e) == 0 by {
            assert(!out@.contains(e));
        }
        assert(out@.to_multiset().add(rest@.to_multiset()) =~= v@.to_multiset());
    }
    while rest.len() > 0
        invariant
            out@.to_multiset().add(rest@.to_multiset()) == v@.to_multiset(),
            out@.len() + rest@.len() == v@.len(),
            entries_sorted(out@),
            forall|x: int, y: int|
                0 <= x < out@.len() && 0 <= y < rest@.len() ==> entry_le(out@[x], rest@[y]),
        decreases rest@.len(),
    {
        let mut m: usize = 0;
        let mut j: usize = 1;
        proof {
            lemma_entry_le_total(rest@[0], rest@[0]);
        }
        while j < rest.len()
            invariant
                rest@.len() > 0,
                m < j,
                j <= rest@.len(),
                forall|k: int| 0 <= k < j ==> entry_le(rest@[m as int], #[trigger] rest@[k]),
            decreases rest@.len() - j,
        {
            if entry_le_exec(&rest[j], &rest[m]) {
                proof {
                    assert forall|k: int| 0 <= k < j + 1 implies entry_le(
                        rest@[j as int],
                        #[trigger] rest@[k],
                    ) by {
                        if k < j {
                            lemma_entry_le_transitive(rest@[j as int], rest@[m as int], rest@[k]);
                        } else {
                            lemma_entry_le_total(rest@[j as int], rest@[j as int]);
                        }
                    }
                }
                m = j;
            } else {
                proof {
                    lemma_entry_le_total(rest@[j as int], rest@[m as int]);
                }
            }
            j = j + 1;
        }
        let ghost old_rest = rest@;
        let ghost old_out = out@;
        let x = rest.remove(m);
        out.push(x);
        proof {
            assert(old_rest.contains(x));
            assert(old_rest.to_multiset().count(x) > 0);
            assert forall|e: File|
                out@.to_multiset().add(rest@.to_multiset()).count(e) == v@.to_multiset().count(
                    e,
                ) by {
                    assert(out@.to_multiset() =~= old_out.to_multiset().insert(x));
                    assert(rest@.to_multiset() =~= old_rest.to_multiset().remove(x));
                }
            assert(out@.to_multiset().add(rest@.to_multiset()) =~= v@.to_multiset());
            assert forall|x1: int, y1: int|
                0 <= x1 < y1 < out@.len() implies entry_le(out@[x1], out@[y1]) by {
                if y1 == out@.len() - 1 {
                    assert(entry_le(old_out[x1], old_rest[m as int]));
                }
            }
            assert forall|x1: int, y1: int|
                0 <= x1 < out@.len() && 0 <= y1 < rest@.len() implies entry_le(
                out@[x1],
                rest@[y1],
            ) by {
                let oy = if y1 < m { y1 } else { y1 + 1 };
                assert(rest@[y1] == old_rest[oy]);
                if x1 < out@.len() - 1 {
                    assert(entry_le(old_out[x1], old_rest[oy]));
                } else {
                    assert(entry_le(old_rest[m as int], old_rest[oy]));
                }
            }
        }
    }
    proof {
        assert forall|e: File| out@.to_multiset().count(e) == v@.to_multiset().count(e) by {
            assert(!rest@.contains(e));
            assert(rest@.to_multiset().count(e) == 0);
        }
        assert(out@.to_multiset() =~= v@.to_multiset());
    }
    out
}

/// What one attempt to enumerate a target path produced, as plain values.
pub enum ScanOutcome {
    /// The target was a directory; one raw entry per child.
    Directory(Vec<RawEntry>),
    /// The target exists but is not a directory: it is listed by itself.
    NotDirectory(RawEntry),
    /// The target does not exist.
    NotFound(String),
    /// Enumeration was forbidden by filesystem permissions.
    PermissionDenied(String),
    /// Any other enumeration failure, with its description.
    Other(String),
}

/// What one scan determines about an entry, as mathematical values: its
/// path and its metadata snapshot. Under well-formedness the display name
/// and the sort key are functions of the path, so this is the whole entry.
pub open spec fn entry_abs(f: File) -> (Seq<char>, Metadata) {
    (f.pathbuf@, f.metadata)
}

/// The abstract content of a raw record: its path and metadata.
pub open spec fn raw_abs(r: RawEntry) -> (Seq<char>, Metadata) {
    (r.path@, r.metadata)
}

/// The abstract content of a sequence of entries.
pub open spec fn abs_of(s: Seq<File>) -> Seq<(Seq<char>, Metadata)> {
    s.map_values(|f: File| entry_abs(f))
}

/// The abstract content of a sequence of raw records.
pub open spec fn abs_of_raws(s: Seq<RawEntry>) -> Seq<(Seq<char>, Metadata)> {
    s.map_values(|r: RawEntry| raw_abs(r))
}

/// The sort key one scan derives for a path: the normalized form of its
/// final component.
pub open spec fn key_of_path(p: Seq<char>) -> Seq<char> {
    normal_of(base_name(p))
}

/// The listing order on abstract entries: by derived key, ties by path.
pub open spec fn abs_le(a: (Seq<char>, Metadata), b: (Seq<char>, Metadata)) -> bool {
    pair_le(key_of_path(a.0), a.0, key_of_path(b.0), b.0)
}

/// Mapping a function over two sequences that hold the same elements yields
/// sequences that hold the same elements.
proof fn lemma_map_multiset_eq<A, B>(s: Seq<A>, t: Seq<A>, g: spec_fn(A) -> B)
    requires
        s.to_multiset() == t.to_multiset(),
    ensures
        s.map_values(g).to_multiset() == t.map_values(g).to_multiset(),
    decreases s.len(),
{
    assert(s.len() == s.to_multiset().len());
    assert(t.len() == t.to_multiset().len());
    if s.len() == 0 {
        assert(s.map_values(g) =~= t.map_values(g));
    } else {
        let x = s.last();
        let s1 = s.drop_last();
        assert(s =~= s1.push(x));
        assert(s.to_multiset() =~= s1.to_multiset().insert(x));
        assert(s.contains(x));
        assert(s.to_multiset().count(x) > 0);
        assert(t.to_multiset().count(x) > 0);
        assert(t.contains(x));
        let i = choose|i: int| 0 <= i < t.len() && t[i] == x;
        let t1 = t.remove(i);
        assert(t1.to_multiset() =~= t.to_multiset().remove(x));
        assert forall|e: A| s1.to_multiset().count(e) == t1.to_multiset().count(e) by {
            assert(s.to_multiset().count(e) == s1.to_multiset().insert(x).count(e));
        }
        assert(s1.to_multiset() =~= t1.to_multiset());
        lemma_map_multiset_eq(s1, t1, g);
        assert(s.map_values(g) =~= s1.map_values(g).push(g(x)));
        assert(s.map_values(g).to_multiset() =~= s1.map_values(g).to_multiset().insert(g(x)));
        assert(t1.map_values(g) =~= t.map_values(g).remove(i));
        assert(t.map_values(g).remove(i).to_multiset() =~= t.map_values(g).to_multiset().remove(
            t.map_values(g)[i],
        ));
        assert(t.map_values(g)[i] == g(x));
        assert(t.map_values(g).contains(g(x)));
        assert(t.map_values(g).to_multiset().count(g(x)) > 0);
        assert forall|e: B|
            s.map_values(g).to_multiset().count(e) == t.map_values(g).to_multiset().count(e) by {
            assert(t1.map_values(g).to_multiset().count(e) == t.map_values(
                g,
            ).to_multiset().remove(g(x)).count(e));
        }
        assert(s.map_values(g).to_multiset() =~= t.map_values(g).to_multiset());
    }
}

/// `f` is the entry constructed for the raw record `r`.
pub open spec fn entry_matches(f: File, r: RawEntry) -> bool {
    &&& f.pathbuf@ == r.path@
    &&& f.metadata == r.metadata
    &&& f.wf()
}

/// Builds one entry per raw record, in order; the first path without a final
/// component aborts the whole build.
fn build_entries(raws: Vec<RawEntry>) -> (r: Result<Vec<File>, Error>)
    ensures
        (forall|k: int|
            0 <= k < raws@.len() ==> base_name((#[trigger] raws@[k]).path@).len() > 0) ==> (
        r matches Ok(fs) && fs@.len() == raws@.len() && (forall|k: int|
            0 <= k < raws@.len() ==> entry_matches(#[trigger] fs@[k], raws@[k]))),
        r matches Err(e) ==> exists|k: int|
            0 <= k < raws@.len() && base_name((#[trigger] raws@[k]).path@).len() == 0 && (
            forall|j: int| 0 <= j < k ==> base_name(raws@[j].path@).len() > 0) && (
            e matches Error::InvalidName(p) && p@ == raws@[k].path@),
        r is Ok ==> forall|k: int|
            0 <= k < raws@.len() ==> base_name((#[trigger] raws@[k]).path@).len() > 0,
{
    let mut rest = raws;
    let mut fs: Vec<File> = Vec::new();
    proof {
        assert(rest@ =~= raws@.skip(0));
    }
    while rest.len() > 0
        invariant
            fs@.len() + rest@.len() == raws@.len(),
            rest@ =~= raws@.skip(fs@.len() as int),
            forall|k: int|
                0 <= k < fs@.len() ==> entry_matches(#[trigger] fs@[k], raws@[k]),
            forall|k: int|
                0 <= k < fs@.len() ==> base_name((#[trigger] raws@[k]).path@).len() > 0,
        decreases rest@.len(),
    {
        let ghost d = fs@.len() as int;
        let raw = rest.remove(0);
        proof {
            assert(raw == raws@[d]);
            assert(rest@ =~= raws@.skip(d + 1));
        }
        let meta = raw.metadata;
        match File::new(raw.path, meta) {
            Ok(f) => {
                fs.push(f);
            },
            Err(e) => {
                return Err(e);
            },
        }
    }
    Ok(fs)
}

/// The ordered collection of entries produced by one scan of a target path.
#[derive(Debug)]
pub struct Files(pub Vec<File>);

impl View for Files {
    type V = Seq<File>;

    open spec fn view(&self) -> Seq<File> {
        self.0@
    }
}

impl Files {
    /// Every entry is well formed, and the collection is ascending under
    /// [`entry_le`].
    pub open spec fn wf(self) -> bool {
        &&& entries_sorted(self@)
        &&& forall|i: int| 0 <= i < self@.len() ==> (#[trigger] self@[i]).wf()
    }

    /// Turns the outcome of one enumeration attempt into the sorted
    /// collection, or into the error that classifies the failure.
    pub fn new(outcome: ScanOutcome) -> (r: Result<Files, Error>)
        ensures
            outcome matches ScanOutcome::Directory(raws) ==> ((forall|k: int|
                0 <= k < raws@.len() ==> base_name((#[trigger] raws@[k]).path@).len() > 0)
                <==> r is Ok),
            outcome matches ScanOutcome::Directory(raws) ==> (r matches Ok(fs) ==> fs.wf()
                && fs@.len() == raws@.len() && (exists|built: Seq<File>|
                #![trigger built.to_multiset()]
                built.len() == raws@.len() && (forall|k: int|
                    0 <= k < built.len() ==> entry_matches(#[trigger] built[k], raws@[k]))
                    && fs@.to_multiset() == built.to_multiset())),
            outcome matches ScanOutcome::Directory(raws) ==> (r matches Ok(fs) ==> abs_of(
                fs@,
            ).to_multiset() == abs_of_raws(raws@).to_multiset()),
            outcome matches ScanOutcome::Directory(raws) ==> (r matches Err(e) ==> exists|k: int|
                0 <= k < raws@.len() && base_name((#[trigger] raws@[k]).path@).len() == 0 && (
                forall|j: int| 0 <= j < k ==> base_name(raws@[j].path@).len() > 0) && (
                e matches Error::InvalidName(p) && p@ == raws@[k].path@)),
            outcome matches ScanOutcome::NotDirectory(raw) ==> (base_name(raw.path@).len() > 0
                ==> (r matches Ok(fs) && fs.wf() && fs@.len() == 1 && entry_matches(
                fs@[0],
                raw,
            ))),
            outcome matches ScanOutcome::NotDirectory(raw) ==> (base_name(raw.path@).len() == 0
                ==> (r matches Err(e) && e matches Error::InvalidName(p) && p@ == raw.path@)),
            outcome matches ScanOutcome::NotFound(p) ==> (r matches Err(e)
                && e matches Error::NotFound(q) && q@ == p@),
            outcome matches ScanOutcome::PermissionDenied(p) ==> (r matches Err(e)
                && e matches Error::PermissionDenied(q) && q@ == p@),
            outcome matches ScanOutcome::Other(m) ==> (r matches Err(e)
                && e matches Error::IOError(q) && q@ == m@),
    {
        match outcome {
            ScanOutcome::Directory(raws) => {
                match build_entries(raws) {
                    Ok(fs) => {
                        let ghost built = fs@;
                        let sorted = sort_entries(fs);
                        proof {
                            assert forall|i: int|
                                0 <= i < sorted@.len() implies (#[trigger] sorted@[i]).wf() by {
                                assert(sorted@.contains(sorted@[i]));
                                assert(sorted@.to_multiset().count(sorted@[i]) > 0);
                                assert(built.contains(sorted@[i]));
                                let k = choose|k: int|
                                    0 <= k < built.len() && built[k] == sorted@[i];
                                assert(entry_matches(built[k], raws@[k]));
                            }
                            let g = |f: File| entry_abs(f);
                            lemma_map_multiset_eq(sorted@, built, g);
                            assert(sorted@.map_values(g) =~= abs_of(sorted@));
                            assert(built.map_values(g) =~= abs_of(built));
                            assert(abs_of(built) =~= abs_of_raws(raws@));
                        }
                        Ok(Files(sorted))
                    },
                    Err(e) => Err(e),
                }
            },
            ScanOutcome::NotDirectory(raw) => {
                let meta = raw.metadata;
                match File::new(raw.path, meta) {
                    Ok(f) => {
                        let mut v: Vec<File> = Vec::new();
                        v.push(f);
                        Ok(Files(v))
                    },
                    Err(e) => Err(e),
                }
            },
            ScanOutcome::NotFound(p) => Err(Error::NotFound(p)),
            ScanOutcome::PermissionDenied(p) => Err(Error::PermissionDenied(p)),
            ScanOutcome::Other(m) => Err(Error::IOError(m)),
        }
    }

    /// Borrows the entries in collection order.
    pub fn as_vec(&self) -> (r: &Vec<File>)
        ensures
            r@ == self@,
    {
        &self.0
    }

    /// Borrows the entries mutably: the borrow starts at the current
    /// entries, and whatever the caller leaves behind it becomes the
    /// collection's entries.
    pub fn as_vec_mut(&mut self) -> (r: &mut Vec<File>)
        ensures
            *r == old(self).0,
            final(self).0 == *final(r),
    {
        &mut self.0
    }

    /// Removes, in place, every hidden entry; visible entries keep their
    /// order, and a well-formed collection stays well formed.
    pub fn filter_hidden(&mut self)
        ensures
            final(self)@ == old(self)@.filter(|f: File| visible(f)),
            old(self).wf() ==> final(self).wf(),
    {
        let mut v: Vec<File> = Vec::new();
        core::mem::swap(&mut self.0, &mut v);
        let ghost orig = v@;
        let mut out: Vec<File> = Vec::new();
        proof {
            reveal(Seq::filter);
            assert(orig.take(0) =~= Seq::<File>::empty());
        }
        while v.len() > 0
            invariant
                v@.len() <= orig.len(),
                v@ =~= orig.skip(orig.len() - v@.len()),
                out@ =~= orig.take(orig.len() - v@.len()).filter(|f: File| visible(f)),
            decreases v@.len(),
        {
            let ghost k = orig.len() - v@.len();
            let f = v.remove(0);
            proof {
                assert(f == orig[k]);
                assert(v@ =~= orig.skip(k + 1));
            }
            if !util::is_hidden(f.file_name.as_str()) {
                out.push(f);
            }
            proof {
                reveal(Seq::filter);
                assert(orig.take(k + 1).drop_last() =~= orig.take(k));
                assert(orig.take(k + 1).last() == orig[k]);
            }
        }
        proof {
            assert(orig.take(orig.len() as int) =~= orig);
        }
        self.0 = out;
        proof {
            if old(self).wf() {
                lemma_filter_sorted(orig, |f: File| visible(f));
                lemma_filter_is_subset(orig, |f: File| visible(f));
                assert forall|i: int|
                    0 <= i < self@.len() implies (#[trigger] self@[i]).wf() by {
                    assert(self@.contains(self@[i]));
                    assert(orig.contains(self@[i]));
                    let k = choose|k: int| 0 <= k < orig.len() && orig[k] == self@[i];
                    assert(orig[k].wf());
                }
            }
        }
    }
}

/// An entry is visible when its display name does not begin with a dot.
pub open spec fn visible(f: File) -> bool {
    !hidden_name(f.file_name@)
}

/// Every element of a filtered sequence occurs in the sequence itself.
proof fn lemma_filter_is_subset(s: Seq<File>, pred: spec_fn(File) -> bool)
    ensures
        forall|x: File| s.filter(pred).contains(x) ==> s.contains(x),
    decreases s.len(),
{
    reveal(Seq::filter);
    if s.len() > 0 {
        let d = s.drop_last();
        lemma_filter_is_subset(d, pred);
        assert forall|x: File| s.filter(pred).contains(x) implies s.contains(x) by {
            let fl = s.filter(pred);
            let i = choose|i: int| 0 <= i < fl.len() && fl[i] == x;
            if pred(s.last()) && i == fl.len() - 1 {
                assert(s[s.len() - 1] == x);
            } else {
                assert(d.filter(pred)[i] == x);
                assert(d.filter(pred).contains(x));
                assert(d.contains(x));
                let k = choose|k: int| 0 <= k < d.len() && d[k] == x;
                assert(s[k] == x);
            }
        }
    }
}

/// Filtering preserves the sort order: removing entries never reorders the
/// rest.
proof fn lemma_filter_sorted(s: Seq<File>, pred: spec_fn(File) -> bool)
    requires
        entries_sorted(s),
    ensures
        entries_sorted(s.filter(pred)),
    decreases s.len(),
{
    reveal(Seq::filter);
    if s.len() > 0 {
        let d = s.drop_last();
        assert(entries_sorted(d));
        lemma_filter_sorted(d, pred);
        lemma_filter_is_subset(d, pred);
        let fl = s.filter(pred);
        if pred(s.last()) {
            assert forall|i: int, j: int| 0 <= i < j < fl.len() implies entry_le(
                fl[i],
                fl[j],
            ) by {
                if j == fl.len() - 1 {
                    assert(fl[j] == s.last());
                    assert(d.filter(pred)[i] == fl[i]);
                    assert(d.filter(pred).contains(fl[i]));
                    assert(d.contains(fl[i]));
                    let k = choose|k: int| 0 <= k < d.len() && d[k] == fl[i];
                    assert(entry_le(s[k], s[s.len() - 1]));
                } else {
                    assert(d.filter(pred)[i] == fl[i]);
                    assert(d.filter(pred)[j] == fl[j]);
                }
            }
        }
    }
}

impl File {
    /// The display name: the final component of the entry's path.
    pub fn file_name(&self) -> (r: &str)
        ensures
            r@ == self.file_name@,
    {
        self.file_name.as_str()
    }

    /// The entry's classification.
    pub fn file_type(&self) -> (r: FileType)
        ensures
            r == self.metadata.file_type,
    {
        self.metadata.file_type
    }

    /// The nine-character permission rendering of the entry's mode; only the
    /// low nine bits are interpreted, everything above them is masked off.
    pub fn permissions(&self) -> (r: String)
        ensures
            r@ == perm_chars(self.metadata.mode & 511),
    {
        let bits = self.metadata.mode & 511;
        proof {
            let m = self.metadata.mode;
            assert(m & 511 < 512) by (bit_vector);
        }
        sys::perm_string(bits)
    }

    /// The hard-link count.
    pub fn hlink_num(&self) -> (r: u64)
        ensures
            r == self.metadata.nlink,
    {
        self.metadata.nlink
    }

    /// Resolves the owning user id to a name; a failed resolution is fatal
    /// for the listing that asked.
    pub fn user(&self) -> (r: Result<String, Error>)
        ensures
            r matches Err(e) ==> e == Error::IdentityResolutionFailed(self.metadata.uid),
    {
        match sys::user_name_of_uid(self.metadata.uid) {
            Some(n) => Ok(n),
            None => Err(Error::IdentityResolutionFailed(self.metadata.uid)),
        }
    }

    /// Resolves the owning group id to a name; a failed resolution is fatal
    /// for the listing that asked.
    pub fn group(&self) -> (r: Result<String, Error>)
        ensures
            r matches Err(e) ==> e == Error::IdentityResolutionFailed(self.metadata.gid),
    {
        match sys::group_name_of_gid(self.metadata.gid) {
            Some(n) => Ok(n),
            None => Err(Error::IdentityResolutionFailed(self.metadata.gid)),
        }
    }

    /// The byte size.
    pub fn size(&self) -> (r: u64)
        ensures
            r == self.metadata.size,
    {
        self.metadata.size
    }

    /// The last-modification instant rendered in local civil time, as
    /// abbreviated month, space-padded day, hour and minute. Which civil
    /// time the snapshot's instant maps to depends on the machine's time
    /// zone; the rendering's shape does not: twelve characters in that
    /// layout for any instant from year 1 through year 9999, and the empty
    /// string only for one the calendar cannot represent.
    pub fn modified(&self) -> (r: String)
        ensures
            r@.len() == 12 || r@.len() == 0,
            r@.len() == 12 ==> r@[3] == ' ' && r@[6] == ' ' && r@[9] == ':',
            -62_135_596_800 <= self.metadata.mtime <= 253_402_300_799 ==> r@.len() == 12,
    {
        sys::format_mtime(self.metadata.mtime)
    }

    /// The entry's path.
    pub fn pathbuf(&self) -> (r: &String)
        ensures
            r@ == self.pathbuf@,
    {
        &self.pathbuf
    }

    /// The entry's metadata snapshot.
    pub fn metadata(&self) -> (r: &Metadata)
        ensures
            *r == self.metadata,
    {
        &self.metadata
    }

    /// Renders the one-line long format from already-resolved user and group
    /// names, an already-rendered time, and the two column widths.
    pub fn long_fmt_with(
        &self,
        user: &str,
        group: &str,
        time: &str,
        hlpad: usize,
        slpad: usize,
    ) -> (r: String)
        ensures
            r@ =~= line_view(*self, user@, group@, time@, hlpad as nat, slpad as nat),
    {
        proof {
            reveal_strlit(" ");
        }
        let mut s = String::new();
        s.append(self.metadata.file_type.glyph_str());
        let perms = self.permissions();
        s.append(perms.as_str());
        s.append(" ");
        let links = util::fmt_u64_padded(self.metadata.nlink, hlpad);
        s.append(links.as_str());
        s.append(" ");
        s.append(user);
        s.append(" ");
        s.append(group);
        s.append(" ");
        let size = util::fmt_u64_padded(self.metadata.size, slpad);
        s.append(size.as_str());
        s.append(" ");
        s.append(time);
        s.append(" ");
        s.append(self.file_name.as_str());
        s
    }

    /// Renders the full long-format line, resolving ownership and time
    /// through the system services.
    pub fn long_fmt(&self, hlpad: usize, slpad: usize) -> (r: Result<String, Error>)
        ensures
            r matches Err(e) ==> (e == Error::IdentityResolutionFailed(self.metadata.uid) || e
                == Error::IdentityResolutionFailed(self.metadata.gid)),
            r matches Ok(s) ==> exists|u: Seq<char>, g: Seq<char>, t: Seq<char>|
                s@ == line_view(*self, u, g, t, hlpad as nat, slpad as nat),
    {
        let user = match self.user() {
            Ok(u) => u,
            Err(e) => {
                return Err(e);
            },
        };
        let group = match self.group() {
            Ok(g) => g,
            Err(e) => {
                return Err(e);
            },
        };
        let time = self.modified();
        let line = self.long_fmt_with(user.as_str(), group.as_str(), time.as_str(), hlpad, slpad);
        Ok(line)
    }
}

/// The one-line long format of an entry:
/// `<type><perms> <links> <user> <group> <size> <modtime> <name>`, with the
/// link count and size right-justified to the given widths.
pub open spec fn line_view(
    f: File,
    user: Seq<char>,
    group: Seq<char>,
    time: Seq<char>,
    hlpad: nat,
    slpad: nat,
) -> Seq<char> {
    seq![f.metadata.file_type.glyph()] + perm_chars(f.metadata.mode & 511) + seq![' ']
        + padded_dec(f.metadata.nlink as nat, hlpad) + seq![' '] + user + seq![' '] + group
        + seq![' '] + padded_dec(f.metadata.size as nat, slpad) + seq![' '] + time + seq![' ']
        + f.file_name@
}

/// The largest hard-link count in the collection, zero when it is empty.
pub open spec fn spec_max_nlink(s: Seq<File>) -> nat
    decreases s.len(),
{
    if s.len() == 0 {
        0
    } else {
        let m = spec_max_nlink(s.drop_last());
        let x = s.last().metadata.nlink as nat;
        if x > m {
            x
        } else {
            m
        }
    }
}

/// The largest byte size in the collection, zero when it is empty.
pub open spec fn spec_max_size(s: Seq<File>) -> nat
    decreases s.len(),
{
    if s.len() == 0 {
        0
    } else {
        let m = spec_max_size(s.drop_last());
        let x = s.last().metadata.size as nat;
        if x > m {
            x
        } else {
            m
        }
    }
}

proof fn lemma_max_nlink_ge(s: Seq<File>, i: int)
    requires
        0 <= i < s.len(),
    ensures
        s[i].metadata.nlink as nat <= spec_max_nlink(s),
    decreases s.len(),
{
    if i < s.len() - 1 {
        lemma_max_nlink_ge(s.drop_last(), i);
    }
}

proof fn lemma_max_size_ge(s: Seq<File>, i: int)
    requires
        0 <= i < s.len(),
    ensures
        s[i].metadata.size as nat <= spec_max_size(s),
    decreases s.len(),
{
    if i < s.len() - 1 {
        lemma_max_size_ge(s.drop_last(), i);
    }
}

/// The long rendering of a collection with already-resolved names and times,
/// one line per entry, newline-joined, with no trailing newline; an empty
/// collection renders as the empty sequence.
pub open spec fn long_view(
    s: Seq<File>,
    us: Seq<Seq<char>>,
    gs: Seq<Seq<char>>,
    ts: Seq<Seq<char>>,
    hlpad: nat,
    slpad: nat,
) -> Seq<char>
    decreases s.len(),
{
    if s.len() == 0 {
        Seq::empty()
    } else if s.len() == 1 {
        line_view(s[0], us[0], gs[0], ts[0], hlpad, slpad)
    } else {
        long_view(s.drop_last(), us.drop_last(), gs.drop_last(), ts.drop_last(), hlpad, slpad)
            + seq!['\n'] + line_view(s.last(), us.last(), gs.last(), ts.last(), hlpad, slpad)
    }
}

/// The compact rendering: each entry's display name in collection order,
/// joined by a double space, with no trailing separator.
pub open spec fn compact_view(s: Seq<File>) -> Seq<char>
    decreases s.len(),
{
    if s.len() == 0 {
        Seq::empty()
    } else if s.len() == 1 {
        s[0].file_name@
    } else {
        compact_view(s.drop_last()) + seq![' ', ' '] + s.last().file_name@
    }
}

/// Renders the compact listing of a collection.
pub fn fmt(files: &Files) -> (r: String)
    ensures
        r@ =~= compact_view(files@),
{
    proof {
        reveal_strlit("  ");
        assert(files@.take(0) =~= Seq::<File>::empty());
    }
    let mut out = String::new();
    let n = files.0.len();
    let mut i: usize = 0;
    while i < n
        invariant
            n == files@.len(),
            i <= n,
            "  "@ =~= seq![' ', ' '],
            out@ =~= compact_view(files@.take(i as int)),
        decreases n - i,
    {
        if i > 0 {
            out.append("  ");
        }
        out.append(files.0[i].file_name.as_str());
        proof {
            assert(files@.take(i + 1).drop_last() =~= files@.take(i as int));
            assert(files@.take(i + 1).last() == files@[i as int]);
        }
        i = i + 1;
    }
    proof {
        assert(files@.take(n as int) =~= files@);
    }
    out
}

impl Files {
    /// The largest byte size among the entries.
    pub fn biggest_file_size(&self) -> (r: u64)
        requires
            self@.len() > 0,
        ensures
            r as nat == spec_max_size(self@),
    {
        proof {
            assert(self@.take(0) =~= Seq::<File>::empty());
        }
        let mut m: u64 = 0;
        let n = self.0.len();
        let mut i: usize = 0;
        while i < n
            invariant
                n == self@.len(),
                i <= n,
                m as nat == spec_max_size(self@.take(i as int)),
            decreases n - i,
        {
            let x = self.0[i].metadata.size;
            if x > m {
                m = x;
            }
            proof {
                assert(self@.take(i + 1).drop_last() =~= self@.take(i as int));
                assert(self@.take(i + 1).last() == self@[i as int]);
            }
            i = i + 1;
        }
        proof {
            assert(self@.take(n as int) =~= self@);
        }
        m
    }

    /// The largest hard-link count among the entries.
    pub fn biggest_file_hlink(&self) -> (r: u64)
        requires
            self@.len() > 0,
        ensures
            r as nat == spec_max_nlink(self@),
    {
        proof {
            assert(self@.take(0) =~= Seq::<File>::empty());
        }
        let mut m: u64 = 0;
        let n = self.0.len();
        let mut i: usize = 0;
        while i < n
            invariant
                n == self@.len(),
                i <= n,
                m as nat == spec_max_nlink(self@.take(i as int)),
            decreases n - i,
        {
            let x = self.0[i].metadata.nlink;
            if x > m {
                m = x;
            }
            proof {
                assert(self@.take(i + 1).drop_last() =~= self@.take(i as int));
                assert(self@.take(i + 1).last() == self@[i as int]);
            }
            i = i + 1;
        }
        proof {
            assert(self@.take(n as int) =~= self@);
        }
        m
    }

    /// Renders every entry's long-format line from already-resolved names
    /// and times, newline-joined, with the numeric columns sized from the
    /// largest link count and size.
    pub fn long_fmt_with(
        &self,
        users: &Vec<String>,
        groups: &Vec<String>,
        times: &Vec<String>,
    ) -> (r: String)
        requires
            users@.len() == self@.len(),
            groups@.len() == self@.len(),
            times@.len() == self@.len(),
        ensures
            r@ =~= long_view(
                self@,
                users@.map_values(|u: String| u@),
                groups@.map_values(|g: String| g@),
                times@.map_values(|t: String| t@),
                num_digits(spec_max_nlink(self@)),
                num_digits(spec_max_size(self@)),
            ),
    {
        let ghost us = users@.map_values(|u: String| u@);
        let ghost gs = groups@.map_values(|g: String| g@);
        let ghost ts = times@.map_values(|t: String| t@);
        if self.0.len() == 0 {
            return String::new();
        }
        let hlpad = util::count_digits(self.biggest_file_hlink());
        let slpad = util::count_digits(self.biggest_file_size());
        proof {
            reveal_strlit("\n");
            assert(self@.take(0) =~= Seq::<File>::empty());
            assert(us.take(0) =~= Seq::<Seq<char>>::empty());
        }
        let mut out = String::new();
        let n = self.0.len();
        let mut i: usize = 0;
        while i < n
            invariant
                n == self@.len(),
                i <= n,
                users@.len() == n,
                groups@.len() == n,
                times@.len() == n,
                us == users@.map_values(|u: String| u@),
                gs == groups@.map_values(|g: String| g@),
                ts == times@.map_values(|t: String| t@),
                hlpad as nat == num_digits(spec_max_nlink(self@)),
                slpad as nat == num_digits(spec_max_size(self@)),
                "\n"@ =~= seq!['\n'],
                out@ =~= long_view(
                    self@.take(i as int),
                    us.take(i as int),
                    gs.take(i as int),
                    ts.take(i as int),
                    hlpad as nat,
                    slpad as nat,
                ),
            decreases n - i,
        {
            if i > 0 {
                out.append("\n");
            }
            let line = self.0[i].long_fmt_with(
                users[i].as_str(),
                groups[i].as_str(),
                times[i].as_str(),
                hlpad,
                slpad,
            );
            out.append(line.as_str());
            proof {
                assert(self@.take(i + 1).drop_last() =~= self@.take(i as int));
                assert(us.take(i + 1).drop_last() =~= us.take(i as int));
                assert(gs.take(i + 1).drop_last() =~= gs.take(i as int));
                assert(ts.take(i + 1).drop_last() =~= ts.take(i as int));
                assert(self@.take(i + 1).last() == self@[i as int]);
                assert(us.take(i + 1).last() == us[i as int]);
                assert(gs.take(i + 1).last() == gs[i as int]);
                assert(ts.take(i + 1).last() == ts[i as int]);
            }
            i = i + 1;
        }
        proof {
            assert(self@.take(n as int) =~= self@);
            assert(us.take(n as int) =~= us);
            assert(gs.take(n as int) =~= gs);
            assert(ts.take(n as int) =~= ts);
        }
        out
    }

    /// Renders the long-format report: resolves every entry's owner and
    /// group through the system identity services, sizes the numeric
    /// columns, and joins one line per entry. An empty collection renders as
    /// the empty string; the first id that cannot be resolved aborts the
    /// whole render.
    pub fn long_fmt(&self) -> (r: Result<String, Error>)
        ensures
            self@.len() == 0 ==> (r matches Ok(s) && s@ == Seq::<char>::empty()),
            r matches Err(e) ==> (e matches Error::IdentityResolutionFailed(id) && exists|k: int|
                0 <= k < self@.len() && (id == (#[trigger] self@[k]).metadata.uid || id
                    == self@[k].metadata.gid)),
            r matches Ok(s) ==> exists|us: Seq<Seq<char>>, gs: Seq<Seq<char>>, ts: Seq<Seq<char>>|
                #![trigger long_view(self@, us, gs, ts, num_digits(spec_max_nlink(self@)), num_digits(spec_max_size(self@)))]
                us.len() == self@.len() && gs.len() == self@.len() && ts.len() == self@.len() && s@
                    == long_view(
                    self@,
                    us,
                    gs,
                    ts,
                    num_digits(spec_max_nlink(self@)),
                    num_digits(spec_max_size(self@)),
                ),
    {
        let mut users: Vec<String> = Vec::new();
        let mut groups: Vec<String> = Vec::new();
        let mut times: Vec<String> = Vec::new();
        let n = self.0.len();
        let mut i: usize = 0;
        while i < n
            invariant
                n == self@.len(),
                i <= n,
                users@.len() == i,
                groups@.len() == i,
                times@.len() == i,
            decreases n - i,
        {
            match self.0[i].user() {
                Ok(u) => users.push(u),
                Err(e) => {
                    return Err(e);
                },
            }
            match self.0[i].group() {
                Ok(g) => groups.push(g),
                Err(e) => {
                    return Err(e);
                },
            }
            times.push(self.0[i].modified());
            i = i + 1;
        }
        let s = self.long_fmt_with(&users, &groups, &times);
        proof {
            assert(s@ == long_view(
                self@,
                users@.map_values(|u: String| u@),
                groups@.map_values(|g: String| g@),
                times@.map_values(|t: String| t@),
                num_digits(spec_max_nlink(self@)),
                num_digits(spec_max_size(self@)),
            ));
        }
        Ok(s)
    }
}

/// A well-formed collection lists its entries in ascending sort-key order:
/// each entry compares no later than any later one, by normalized key with
/// ties broken by path, so the compact rendering names them in that order.
pub proof fn lemma_collection_ordered(files: Files)
    requires
        files.wf(),
    ensures
        forall|i: int, j: int|
            0 <= i < j < files@.len() ==> entry_le(#[trigger] files@[i], #[trigger] files@[j]),
{
}

/// Every link-count field of the long rendering is exactly as wide as the
/// digit count of the largest link count in the collection.
pub proof fn lemma_link_column_width(files: Files, i: int)
    requires
        0 <= i < files@.len(),
    ensures
        padded_dec(files@[i].metadata.nlink as nat, num_digits(spec_max_nlink(files@))).len()
            == num_digits(spec_max_nlink(files@)),
{
    lemma_max_nlink_ge(files@, i);
    util::lemma_padded_dec_width(files@[i].metadata.nlink as nat, spec_max_nlink(files@));
}

/// Every size field of the long rendering is exactly as wide as the digit
/// count of the largest size in the collection.
pub proof fn lemma_size_column_width(files: Files, i: int)
    requires
        0 <= i < files@.len(),
    ensures
        padded_dec(files@[i].metadata.size as nat, num_digits(spec_max_size(files@))).len()
            == num_digits(spec_max_size(files@)),
{
    lemma_max_size_ge(files@, i);
    util::lemma_padded_dec_width(files@[i].metadata.size as nat, spec_max_size(files@));
}

/// Two sequences sorted under one relation and holding the same elements
/// are equal element for element, provided the relation is reflexive on
/// those elements and ties among them are genuine equalities.
proof fn lemma_sorted_unique<A>(s: Seq<A>, t: Seq<A>, le: spec_fn(A, A) -> bool)
    requires
        forall|i: int, j: int| 0 <= i < j < s.len() ==> le(s[i], s[j]),
        forall|i: int, j: int| 0 <= i < j < t.len() ==> le(t[i], t[j]),
        s.to_multiset() == t.to_multiset(),
        forall|x: A| s.contains(x) ==> le(x, x),
        forall|x: A, y: A| s.contains(x) && s.contains(y) && le(x, y) && le(y, x) ==> x == y,
    ensures
        s == t,
    decreases s.len(),
{
    assert(s.len() == s.to_multiset().len());
    assert(t.len() == t.to_multiset().len());
    if s.len() == 0 {
        assert(s =~= t);
    } else {
        let a = s[0];
        let b = t[0];
        assert(s.contains(a));
        assert(s.to_multiset().count(a) > 0);
        assert(t.to_multiset().count(b) > 0);
        assert(t.contains(a));
        assert(s.contains(b));
        let ja = choose|j: int| 0 <= j < t.len() && t[j] == a;
        let jb = choose|j: int| 0 <= j < s.len() && s[j] == b;
        assert(le(b, a)) by {
            if ja > 0 {
                assert(le(t[0], t[ja]));
            }
        }
        assert(le(a, b)) by {
            if jb > 0 {
                assert(le(s[0], s[jb]));
            }
        }
        assert(a == b);
        let s1 = s.skip(1);
        let t1 = t.skip(1);
        assert(s1 =~= s.remove(0));
        assert(t1 =~= t.remove(0));
        assert(s1.to_multiset() =~= s.to_multiset().remove(a));
        assert(t1.to_multiset() =~= t.to_multiset().remove(a));
        assert forall|i: int, j: int| 0 <= i < j < s1.len() implies le(s1[i], s1[j]) by {
            assert(s1[i] == s[i + 1]);
            assert(s1[j] == s[j + 1]);
        }
        assert forall|i: int, j: int| 0 <= i < j < t1.len() implies le(t1[i], t1[j]) by {
            assert(t1[i] == t[i + 1]);
            assert(t1[j] == t[j + 1]);
        }
        assert forall|x: A| s1.contains(x) implies s.contains(x) by {
            let ix = choose|i: int| 0 <= i < s1.len() && s1[i] == x;
            assert(s[ix + 1] == x);
        }
        lemma_sorted_unique(s1, t1, le);
        assert(s.len() == t.len());
        assert forall|i: int| 0 <= i < s.len() implies s[i] == t[i] by {
            if i > 0 {
                assert(s[i] == s1[i - 1]);
                assert(t[i] == t1[i - 1]);
            }
        }
        assert(s =~= t);
    }
}

/// Sorting is stable under repetition: two sorted sequences that hold the
/// same entries are equal element for element, provided entries are
/// identified by their sort key and path (as one scan of one directory
/// yields them). With the scan contract this makes repeated scans of an
/// unchanged directory render identically.
pub proof fn lemma_sorted_same_entries_equal(s: Seq<File>, t: Seq<File>)
    requires
        entries_sorted(s),
        entries_sorted(t),
        s.to_multiset() == t.to_multiset(),
        forall|x: File, y: File|
            s.contains(x) && s.contains(y) && x.fname_nrml@ == y.fname_nrml@ && x.pathbuf@
                == y.pathbuf@ ==> x == y,
    ensures
        s == t,
{
    let le = |a: File, b: File| entry_le(a, b);
    assert forall|x: File| s.contains(x) implies le(x, x) by {
        lemma_entry_le_total(x, x);
    }
    assert forall|x: File, y: File|
        s.contains(x) && s.contains(y) && le(x, y) && le(y, x) implies x == y by {
        lemma_entry_le_antisymmetric(x, y);
    }
    lemma_sorted_unique(s, t, le);
}

proof fn lemma_compact_view_determined(x: Seq<File>, y: Seq<File>)
    requires
        x.len() == y.len(),
        forall|i: int| 0 <= i < x.len() ==> x[i].file_name@ == y[i].file_name@,
    ensures
        compact_view(x) == compact_view(y),
    decreases x.len(),
{
    if x.len() > 1 {
        lemma_compact_view_determined(x.drop_last(), y.drop_last());
    }
}

/// Repeated scans of an unchanged directory are deterministic: two
/// well-formed collections that hold the same entries — each path with the
/// same metadata snapshot, and no path listed twice — agree entry for entry
/// in path and metadata, and render the same compact listing. With the scan
/// contract, which ties a collection's abstract content to the enumerated
/// records, two scans of the same records satisfy these hypotheses.
pub proof fn lemma_scan_deterministic(a: Files, b: Files)
    requires
        a.wf(),
        b.wf(),
        abs_of(a@).to_multiset() == abs_of(b@).to_multiset(),
        forall|i: int, j: int|
            0 <= i < j < a@.len() ==> (#[trigger] a@[i]).pathbuf@ != (#[trigger] a@[j]).pathbuf@,
    ensures
        abs_of(a@) == abs_of(b@),
        compact_view(a@) == compact_view(b@),
{
    let sa = abs_of(a@);
    let sb = abs_of(b@);
    let le = |x: (Seq<char>, Metadata), y: (Seq<char>, Metadata)| abs_le(x, y);
    assert forall|i: int, j: int| 0 <= i < j < sa.len() implies le(sa[i], sa[j]) by {
        assert(entry_le(a@[i], a@[j]));
        assert(a@[i].wf());
        assert(a@[j].wf());
    }
    assert forall|i: int, j: int| 0 <= i < j < sb.len() implies le(sb[i], sb[j]) by {
        assert(entry_le(b@[i], b@[j]));
        assert(b@[i].wf());
        assert(b@[j].wf());
    }
    assert forall|x: (Seq<char>, Metadata)| sa.contains(x) implies le(x, x) by {
        order::lemma_lex_le_reflexive(x.0);
    }
    assert forall|x: (Seq<char>, Metadata), y: (Seq<char>, Metadata)|
        sa.contains(x) && sa.contains(y) && le(x, y) && le(y, x) implies x == y by {
        if key_of_path(x.0) != key_of_path(y.0) {
            order::lemma_lex_le_antisymmetric(key_of_path(x.0), key_of_path(y.0));
        } else {
            order::lemma_lex_le_antisymmetric(x.0, y.0);
        }
        assert(x.0 == y.0);
        let ix = choose|i: int| 0 <= i < sa.len() && sa[i] == x;
        let iy = choose|i: int| 0 <= i < sa.len() && sa[i] == y;
        assert(sa[ix].0 == a@[ix].pathbuf@);
        assert(sa[iy].0 == a@[iy].pathbuf@);
        if ix < iy {
            assert(a@[ix].pathbuf@ != a@[iy].pathbuf@);
        } else if iy < ix {
            assert(a@[iy].pathbuf@ != a@[ix].pathbuf@);
        }
        assert(ix == iy);
        assert(x == sa[ix] && y == sa[ix]);
    }
    lemma_sorted_unique(sa, sb, le);
    assert(a@.len() == b@.len());
    assert forall|i: int| 0 <= i < a@.len() implies (#[trigger] a@[i]).file_name@
        == b@[i].file_name@ by {
        assert(sa[i] == sb[i]);
        assert(sa[i].0 == a@[i].pathbuf@);
        assert(sb[i].0 == b@[i].pathbuf@);
        assert(a@[i].wf());
        assert(b@[i].wf());
    }
    lemma_compact_view_determined(a@, b@);
}

/// Removing hidden entries twice yields the same sequence as removing them
/// once: the survivors of one pass are all visible.
pub proof fn lemma_filter_hidden_idempotent(s: Seq<File>)
    ensures
        s.filter(|f: File| visible(f)).filter(|f: File| visible(f)) == s.filter(
            |f: File| visible(f),
        ),
    decreases s.len(),
{
    reveal(Seq::filter);
    if s.len() > 0 {
        lemma_filter_hidden_idempotent(s.drop_last());
        let d = s.drop_last().filter(|f: File| visible(f));
        if visible(s.last()) {
            assert(d.push(s.last()).drop_last() =~= d);
            assert(s.filter(|f: File| visible(f)) == d.push(s.last()));
        }
    }
}

} // verus!
