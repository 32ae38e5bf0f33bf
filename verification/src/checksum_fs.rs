//! An in-memory tree filesystem whose files carry a content digest, so
//! that later corruption of the stored bytes is detectable.

use vstd::prelude::*;

verus! {

broadcast use Seq::group_seq_extra;

/// The digest the hash function assigns to a byte sequence.
pub uninterp spec fn digest_of(data: Seq<u8>) -> Seq<u8>;

/// Relies on sha2::Sha256 (through the Digest trait): the digest is 32
/// bytes and depends on the input bytes alone.
#[verifier::external_body]
fn sha256_of(data: &[u8]) -> (r: [u8; 32])
    ensures
        r@ == digest_of(data@),
{
    let out = <sha2::Sha256 as sha2::Digest>::digest(data);
    out.into()
}

/// Relies on str::chars: the characters of the string, in order.
#[verifier::external_body]
pub(crate) fn str_chars(s: &str) -> (r: Vec<char>)
    ensures
        r@ == s@,
{
    s.chars().collect()
}

/// Relies on String's FromIterator over chars: the string holding exactly
/// the given characters.
#[verifier::external_body]
fn chars_to_string(v: &Vec<char>) -> (r: String)
    ensures
        r@ == v@,
{
    v.iter().collect()
}

/// Splitting the rest of `s` (from index `i`) on `/`, with `cur` the
/// segment read so far and `acc` the segments already complete.
pub open spec fn split_acc(s: Seq<char>, i: int, cur: Seq<char>, acc: Seq<Seq<char>>) -> Seq<
    Seq<char>,
>
    decreases s.len() - i,
{
    if i < 0 || i >= s.len() {
        if cur.len() == 0 {
            acc
        } else {
            acc.push(cur)
        }
    } else if s[i] == '/' {
        if cur.len() == 0 {
            split_acc(s, i + 1, cur, acc)
        } else {
            split_acc(s, i + 1, Seq::empty(), acc.push(cur))
        }
    } else {
        split_acc(s, i + 1, cur.push(s[i]), acc)
    }
}

/// The non-empty segments of a path, split on `/`.
pub open spec fn spec_split(s: Seq<char>) -> Seq<Seq<char>> {
    split_acc(s, 0, Seq::empty(), Seq::empty())
}

/// The current-directory segment.
pub open spec fn seg_dot() -> Seq<char> {
    seq!['.']
}

/// The parent-directory segment.
pub open spec fn seg_dotdot() -> Seq<char> {
    seq!['.', '.']
}

/// The path components: the segments minus current-directory markers.
pub open spec fn spec_components(s: Seq<char>) -> Seq<Seq<char>> {
    spec_split(s).filter(|c: Seq<char>| c != seg_dot())
}

/// Whether the path names a parent directory anywhere.
pub open spec fn spec_has_parent(s: Seq<char>) -> bool {
    spec_split(s).contains(seg_dotdot())
}

/// `FileMetadata` reports a stored file's size and content digest.
#[derive(Debug, Clone, Copy, PartialEq, Eq)]
pub struct FileMetadata {
    pub size: u64,
    pub checksum: [u8; 32],
}

/// `DirEntry` is one listing entry: a name, whether it is a directory,
/// and the file metadata for files.
#[derive(Debug, PartialEq, Eq)]
pub struct DirEntry {
    pub name: String,
    pub is_dir: bool,
    pub metadata: Option<FileMetadata>,
}

/// `FileRecord` stores a file's bytes together with the digest computed
/// when it was written.
#[derive(Debug)]
pub struct FileRecord {
    pub data: Vec<u8>,
    pub checksum: [u8; 32],
    pub size: u64,
}

/// `Directory` holds named children; names are unique.
#[derive(Debug)]
pub struct Directory {
    pub entries: Vec<(String, Node)>,
}

/// `Node` is a file or a directory.
#[derive(Debug)]
pub enum Node {
    File(FileRecord),
    Directory(Directory),
}

/// The first child of `es` named `name`.
pub open spec fn entries_get(es: Seq<(String, Node)>, name: Seq<char>) -> Option<Node>
    decreases es.len(),
{
    if es.len() == 0 {
        None
    } else if es[0].0@ == name {
        Some(es[0].1)
    } else {
        entries_get(es.drop_first(), name)
    }
}

/// The node the component path names, starting from `n`.
pub open spec fn resolve_node(n: Node, cs: Seq<Seq<char>>) -> Option<Node>
    decreases cs.len(),
{
    if cs.len() == 0 {
        Some(n)
    } else {
        match n {
            Node::File(_) => None,
            Node::Directory(d) => match entries_get(d.entries@, cs[0]) {
                Some(child) => resolve_node(child, cs.drop_first()),
                None => None,
            },
        }
    }
}

/// The error cases of the checksum filesystem.
#[derive(Debug)]
pub enum CfsError {
    /// The path has no components.
    EmptyPath,
    /// The path names a parent directory.
    ParentRef,
    /// The named node is a directory where a file was needed.
    IsDirectory(String),
    /// The named node is a file where a directory was needed.
    IsFile(String),
    /// A directory on the path does not exist.
    MissingDirectory(String),
    /// The named node does not exist.
    NotFound(String),
}

/// Relies on String::push_str: appends the characters of `s`.
#[verifier::external_body]
pub(crate) fn append_str(buf: &mut String, s: &str)
    ensures
        final(buf)@ == old(buf)@ + s@,
{
    buf.push_str(s);
}

impl CfsError {
    /// `message` renders the error as the human-readable text the
    /// operations report.
    pub fn message(&self) -> String {
        let mut out = String::new();
        match self {
            CfsError::EmptyPath => {
                append_str(&mut out, "path is empty");
            },
            CfsError::ParentRef => {
                append_str(&mut out, "parent directory references are not supported");
            },
            CfsError::IsDirectory(p) => {
                append_str(&mut out, p.as_str());
                append_str(&mut out, " is a directory");
            },
            CfsError::IsFile(p) => {
                append_str(&mut out, p.as_str());
                append_str(&mut out, " is a file");
            },
            CfsError::MissingDirectory(p) => {
                append_str(&mut out, "missing directory ");
                append_str(&mut out, p.as_str());
            },
            CfsError::NotFound(p) => {
                append_str(&mut out, p.as_str());
                append_str(&mut out, " not found");
            },
        }
        out
    }
}

/// `normalize_components` splits a path on `/`, drops empty and
/// current-directory segments, and refuses parent-directory segments.
pub fn normalize_components(path: &str) -> (r: Result<Vec<String>, CfsError>)
    ensures
        r matches Ok(cs) ==> cs@.map_values(|c: String| c@) == spec_components(path@)
            && !spec_has_parent(path@),
        r is Err ==> (r matches Err(e) ==> e is ParentRef) && spec_has_parent(path@),
{
    let chars = str_chars(path);
    let n = chars.len();
    let mut segs: Vec<Vec<char>> = Vec::new();
    let mut cur: Vec<char> = Vec::new();
    let mut i: usize = 0;
    proof {
        assert(segs@.map_values(|c2: Vec<char>| c2@) =~= Seq::<Seq<char>>::empty());
    }
    while i < n
        invariant
            i <= n,
            n == chars@.len(),
            chars@ == path@,
            spec_split(path@) == split_acc(
                path@,
                i as int,
                cur@,
                segs@.map_values(|c: Vec<char>| c@),
            ),
        decreases n - i,
    {
        let c = chars[i];
        if c == '/' {
            if cur.len() > 0 {
                let ghost pre = segs@;
                let ghost curv = cur@;
                segs.push(cur);
                cur = Vec::new();
                proof {
                    assert(segs@.map_values(|c2: Vec<char>| c2@) =~= pre.map_values(
                        |c2: Vec<char>| c2@,
                    ).push(curv));
                }
            }
        } else {
            cur.push(c);
        }
        i = i + 1;
    }
    if cur.len() > 0 {
        segs.push(cur);
    }
    proof {
        assert(segs@.map_values(|c2: Vec<char>| c2@) == spec_split(path@));
    }
    let mut comps: Vec<String> = Vec::new();
    let mut k: usize = 0;
    while k < segs.len()
        invariant
            k <= segs@.len(),
            segs@.map_values(|c2: Vec<char>| c2@) == spec_split(path@),
            comps@.map_values(|c2: String| c2@) == segs@.map_values(
                |c2: Vec<char>| c2@,
            ).take(k as int).filter(|c2: Seq<char>| c2 != seg_dot()),
            forall|q: int| 0 <= q < k ==> (#[trigger] segs@[q])@ != seg_dotdot(),
        decreases segs@.len() - k,
    {
        let seg = &segs[k];
        let is_dot = seg.len() == 1 && seg[0] == '.';
        let is_dotdot = seg.len() == 2 && seg[0] == '.' && seg[1] == '.';
        proof {
            assert(is_dot == (seg@ == seg_dot())) by {
                if seg@.len() == 1 && seg@[0] == '.' {
                    assert(seg@ =~= seg_dot());
                }
            }
            assert(is_dotdot == (seg@ == seg_dotdot())) by {
                if seg@.len() == 2 && seg@[0] == '.' && seg@[1] == '.' {
                    assert(seg@ =~= seg_dotdot());
                }
            }
        }
        if is_dotdot {
            proof {
                assert(spec_split(path@)[k as int] == seg_dotdot());
                assert(spec_has_parent(path@));
            }
            return Err(CfsError::ParentRef);
        }
        let ghost pre = comps@;
        if !is_dot {
            let name = chars_to_string(seg);
            comps.push(name);
        }
        proof {
            let m = segs@.map_values(|c2: Vec<char>| c2@);
            assert(m.take(k + 1) =~= m.take(k as int).push(m[k as int]));
            if !is_dot {
                assert(comps@.map_values(|c2: String| c2@) =~= pre.map_values(
                    |c2: String| c2@,
                ).push(seg@));
            }
        }
        k = k + 1;
    }
    proof {
        let m = segs@.map_values(|c2: Vec<char>| c2@);
        assert(m.take(m.len() as int) =~= m);
        assert(!spec_has_parent(path@)) by {
            if spec_has_parent(path@) {
                let idx = choose|idx: int| 0 <= idx < m.len() && m[idx] == seg_dotdot();
                assert(m[idx] != seg_dotdot());
            }
        }
    }
    Ok(comps)
}

/// Directory-only resolution: the directory the component path names,
/// refusing files along the way.
pub open spec fn resolve_dir_spec(d: Directory, cs: Seq<Seq<char>>) -> Option<Directory>
    decreases cs.len(),
{
    if cs.len() == 0 {
        Some(d)
    } else {
        match entries_get(d.entries@, cs[0]) {
            Some(Node::Directory(sub)) => resolve_dir_spec(sub, cs.drop_first()),
            _ => None,
        }
    }
}

/// The views of a component vector.
pub open spec fn comp_views(cs: Seq<String>) -> Seq<Seq<char>> {
    cs.map_values(|c: String| c@)
}

/// Whether the directory chain the components name can be walked or
/// created: every node that already exists along the way is a directory.
pub open spec fn spec_can_insert(d: Directory, cs: Seq<Seq<char>>) -> bool
    decreases cs.len(),
{
    if cs.len() == 0 {
        true
    } else {
        match entries_get(d.entries@, cs[0]) {
            Some(Node::File(_)) => false,
            Some(Node::Directory(sub)) => spec_can_insert(sub, cs.drop_first()),
            None => true,
        }
    }
}

/// A directory with no children accepts any chain of new directories.
proof fn lemma_can_insert_empty(d: Directory, cs: Seq<Seq<char>>)
    requires
        d.entries@.len() == 0,
    ensures
        spec_can_insert(d, cs),
{
    if cs.len() > 0 {
        assert(entries_get(d.entries@, cs[0]) is None);
    }
}

proof fn lemma_entries_get_first(es: Seq<(String, Node)>, name: Seq<char>, idx: int)
    requires
        0 <= idx < es.len(),
        es[idx].0@ == name,
        forall|q: int| 0 <= q < idx ==> (#[trigger] es[q]).0@ != name,
    ensures
        entries_get(es, name) == Some(es[idx].1),
    decreases idx,
{
    if idx > 0 {
        lemma_entries_get_first(es.drop_first(), name, idx - 1);
    }
}

proof fn lemma_entries_get_none(es: Seq<(String, Node)>, name: Seq<char>)
    requires
        forall|q: int| 0 <= q < es.len() ==> (#[trigger] es[q]).0@ != name,
    ensures
        entries_get(es, name) is None,
    decreases es.len(),
{
    if es.len() > 0 {
        lemma_entries_get_none(es.drop_first(), name);
    }
}

/// `find_entry` returns the index of the first child named `name`.
fn find_entry(es: &Vec<(String, Node)>, name: &String) -> (r: Option<usize>)
    ensures
        r matches Some(idx) ==> idx < es@.len() && es@[idx as int].0@ == name@ && entries_get(
            es@,
            name@,
        ) == Some(es@[idx as int].1) && (forall|q: int|
            0 <= q < idx ==> (#[trigger] es@[q]).0@ != name@),
        r is None ==> entries_get(es@, name@) is None && (forall|q: int|
            0 <= q < es@.len() ==> (#[trigger] es@[q]).0@ != name@),
{
    let mut j: usize = 0;
    while j < es.len()
        invariant
            j <= es@.len(),
            forall|q: int| 0 <= q < j ==> (#[trigger] es@[q]).0@ != name@,
        decreases es@.len() - j,
    {
        if es[j].0.eq(name) {
            proof {
                lemma_entries_get_first(es@, name@, j as int);
            }
            return Some(j);
        }
        j = j + 1;
    }
    proof {
        lemma_entries_get_none(es@, name@);
    }
    None
}

/// `copy_bytes` duplicates a byte vector.
fn copy_bytes(v: &Vec<u8>) -> (r: Vec<u8>)
    ensures
        r@ == v@,
{
    let mut out: Vec<u8> = Vec::new();
    let mut j: usize = 0;
    while j < v.len()
        invariant
            j <= v@.len(),
            out@ == v@.take(j as int),
        decreases v@.len() - j,
    {
        out.push(v[j]);
        proof {
            assert(v@.take(j + 1) =~= v@.take(j as int).push(v@[j as int]));
        }
        j = j + 1;
    }
    proof {
        assert(v@.take(v@.len() as int) =~= v@);
    }
    out
}

/// `resolve_dir_exec` walks the components from index `i`, following only
/// directories.
fn resolve_dir_exec<'a>(d: &'a Directory, comps: &Vec<String>, i: usize) -> (r: Result<
    &'a Directory,
    CfsError,
>)
    requires
        i <= comps@.len(),
    ensures
        r matches Ok(res) ==> resolve_dir_spec(*d, comp_views(comps@).skip(i as int)) == Some(
            *res,
        ),
        r is Err ==> resolve_dir_spec(*d, comp_views(comps@).skip(i as int)) is None,
    decreases comps@.len() - i,
{
    if i == comps.len() {
        proof {
            assert(comp_views(comps@).skip(i as int) =~= Seq::<Seq<char>>::empty());
        }
        return Ok(d);
    }
    let name = &comps[i];
    proof {
        assert(comp_views(comps@).skip(i as int)[0] == name@);
        assert(comp_views(comps@).skip(i as int).drop_first() =~= comp_views(comps@).skip(
            i + 1,
        ));
    }
    match find_entry(&d.entries, name) {
        Some(idx) => {
            match &d.entries[idx].1 {
                Node::Directory(sub) => resolve_dir_exec(sub, comps, i + 1),
                Node::File(_) => Err(CfsError::IsFile(name.clone())),
            }
        },
        None => Err(CfsError::MissingDirectory(name.clone())),
    }
}

/// `ChecksumFs` is the filesystem root.
#[derive(Debug)]
pub struct ChecksumFs {
    pub root: Directory,
}

impl ChecksumFs {
    /// The node a path's components name, starting at the root.
    pub open spec fn spec_lookup(self, cs: Seq<Seq<char>>) -> Option<Node> {
        resolve_node(Node::Directory(self.root), cs)
    }

    /// `new` returns an empty filesystem.
    pub fn new() -> (r: Self)
        ensures
            r.root.entries@.len() == 0,
    {
        ChecksumFs { root: Directory { entries: Vec::new() } }
    }

    /// `read_file` returns a copy of the named file's bytes.
    pub fn read_file(&self, path: &str) -> (r: Result<Vec<u8>, CfsError>)
        ensures
            r matches Ok(data) ==> ({
                &&& self.spec_lookup(spec_components(path@)) matches Some(Node::File(rec))
                &&& data@ == rec.data@
            }),
            r is Ok <==> (!spec_has_parent(path@) && spec_components(path@).len() > 0
                && self.spec_lookup(spec_components(path@)) matches Some(Node::File(rec2))),
    {
        match self.get_file(path) {
            Ok(rec) => Ok(copy_bytes(&rec.data)),
            Err(e) => Err(e),
        }
    }

    /// `verify` recomputes the named file's digest and reports whether it
    /// still matches the digest stored when the file was written.
    pub fn verify(&self, path: &str) -> (r: Result<bool, CfsError>)
        ensures
            r matches Ok(b) ==> ({
                &&& self.spec_lookup(spec_components(path@)) matches Some(Node::File(rec))
                &&& b == (rec.checksum@ == digest_of(rec.data@))
            }),
            r is Ok <==> (!spec_has_parent(path@) && spec_components(path@).len() > 0
                && self.spec_lookup(spec_components(path@)) matches Some(Node::File(rec2))),
    {
        match self.get_file(path) {
            Ok(rec) => {
                let fresh = sha256_of(rec.data.as_slice());
                let mut same = true;
                let mut k: usize = 0;
                proof {
                    assert(rec.checksum@.take(0) =~= fresh@.take(0));
                }
                while k < 32
                    invariant
                        k <= 32,
                        fresh@ == digest_of(rec.data@),
                        same == (rec.checksum@.take(k as int) == fresh@.take(k as int)),
                    decreases 32 - k,
                {
                    let ghost pre = same;
                    if rec.checksum[k] != fresh[k] {
                        same = false;
                    }
                    proof {
                        assert(rec.checksum@.take(k + 1) =~= rec.checksum@.take(
                            k as int,
                        ).push(rec.checksum@[k as int]));
                        assert(fresh@.take(k + 1) =~= fresh@.take(k as int).push(
                            fresh@[k as int],
                        ));
                        if pre && rec.checksum@[k as int] == fresh@[k as int] {
                            assert(rec.checksum@.take(k + 1) =~= fresh@.take(k + 1));
                        }
                        if rec.checksum@.take(k + 1) == fresh@.take(k + 1) {
                            assert(rec.checksum@.take(k as int) =~= rec.checksum@.take(
                                k + 1,
                            ).take(k as int));
                            assert(fresh@.take(k as int) =~= fresh@.take(k + 1).take(
                                k as int,
                            ));
                            assert(rec.checksum@[k as int] == rec.checksum@.take(k + 1)[
                                k as int]);
                        }
                    }
                    k = k + 1;
                }
                proof {
                    assert(rec.checksum@.take(32) =~= rec.checksum@);
                    assert(fresh@.take(32) =~= fresh@);
                }
                Ok(same)
            },
            Err(e) => Err(e),
        }
    }

    /// `get_file` resolves a path to a stored file record.
    fn get_file<'a>(&'a self, path: &str) -> (r: Result<&'a FileRecord, CfsError>)
        ensures
            r matches Ok(rec) ==> self.spec_lookup(spec_components(path@)) == Some(
                Node::File(*rec),
            ),
            r is Ok <==> (!spec_has_parent(path@) && spec_components(path@).len() > 0
                && self.spec_lookup(spec_components(path@)) matches Some(Node::File(rec2))),
    {
        let comps = match normalize_components(path) {
            Ok(cs) => cs,
            Err(e) => {
                proof {
                    assert(self.spec_lookup(spec_components(path@)) is Some
                        ==> spec_components(path@).len() >= 0);
                }
                return Err(e);
            },
        };
        if comps.len() == 0 {
            return Err(CfsError::EmptyPath);
        }
        let last = comps.len() - 1;
        let ghost cs = comp_views(comps@);
        proof {
            assert(cs.skip(0) =~= cs);
            assert(cs.take(last as int).skip(0) =~= cs.take(last as int));
        }
        let parent = match self.resolve_parent(&comps, last) {
            Ok(p) => p,
            Err(e) => {
                proof {
                    Self::lemma_resolve_split(self.root, cs, last as int);
                }
                return Err(e);
            },
        };
        let name = &comps[last];
        match find_entry(&parent.entries, name) {
            Some(idx) => {
                match &parent.entries[idx].1 {
                    Node::File(rec) => {
                        proof {
                            Self::lemma_resolve_split(self.root, cs, last as int);
                        }
                        Ok(rec)
                    },
                    Node::Directory(_) => {
                        proof {
                            Self::lemma_resolve_split(self.root, cs, last as int);
                        }
                        Err(CfsError::IsDirectory(name.clone()))
                    },
                }
            },
            None => {
                proof {
                    Self::lemma_resolve_split(self.root, cs, last as int);
                }
                Err(CfsError::NotFound(name.clone()))
            },
        }
    }

    /// `resolve_parent` resolves the directory holding the last component.
    fn resolve_parent<'a>(&'a self, comps: &Vec<String>, last: usize) -> (r: Result<
        &'a Directory,
        CfsError,
    >)
        requires
            last <= comps@.len(),
        ensures
            r matches Ok(res) ==> resolve_dir_spec(self.root, comp_views(comps@).take(
                last as int,
            )) == Some(*res),
            r is Err ==> resolve_dir_spec(
                self.root,
                comp_views(comps@).take(last as int),
            ) is None,
    {
        let mut cur: &Directory = &self.root;
        let mut i: usize = 0;
        while i < last
            invariant
                i <= last,
                last <= comps@.len(),
                resolve_dir_spec(self.root, comp_views(comps@).take(last as int)) == (
                resolve_dir_spec(*cur, comp_views(comps@).subrange(i as int, last as int))),
            decreases last - i,
        {
            let name = &comps[i];
            let ghost sub = comp_views(comps@);
            proof {
                assert(sub.subrange(i as int, last as int)[0] == name@);
                assert(sub.subrange(i as int, last as int).drop_first() =~= sub.subrange(
                    i + 1,
                    last as int,
                ));
            }
            match find_entry(&cur.entries, name) {
                Some(idx) => {
                    match &cur.entries[idx].1 {
                        Node::Directory(d) => {
                            cur = d;
                        },
                        Node::File(_) => {
                            return Err(CfsError::IsFile(name.clone()));
                        },
                    }
                },
                None => {
                    return Err(CfsError::MissingDirectory(name.clone()));
                },
            }
            i = i + 1;
        }
        proof {
            assert(comp_views(comps@).subrange(last as int, last as int) =~= Seq::<
                Seq<char>,
            >::empty());
        }
        Ok(cur)
    }

    /// Resolving a whole path equals resolving the parent directory and
    /// then looking the last component up in it.
    proof fn lemma_resolve_split(root: Directory, cs: Seq<Seq<char>>, last: int)
        requires
            0 <= last < cs.len(),
            cs.len() == last + 1,
        ensures
            resolve_node(Node::Directory(root), cs) == (match resolve_dir_spec(
                root,
                cs.take(last),
            ) {
                Some(p) => match entries_get(p.entries@, cs[last]) {
                    Some(child) => Some(child),
                    None => None,
                },
                None => None,
            }),
    {
        lemma_resolve_split_helper(root, cs, last);
    }
}

proof fn lemma_entries_get_push(es: Seq<(String, Node)>, name: Seq<char>, e: (String, Node))
    requires
        forall|q: int| 0 <= q < es.len() ==> (#[trigger] es[q]).0@ != name,
    ensures
        entries_get(es.push(e), name) == (if e.0@ == name {
            Some(e.1)
        } else {
            None
        }),
    decreases es.len(),
{
    if es.len() == 0 {
        assert(es.push(e).drop_first() =~= Seq::<(String, Node)>::empty());
        assert(entries_get(Seq::<(String, Node)>::empty(), name) is None);
    } else {
        assert(es.push(e).drop_first() =~= es.drop_first().push(e));
        lemma_entries_get_push(es.drop_first(), name, e);
    }
}

/// `insert_file_exec` stores `rec` under `name` in the directory the
/// components from index `i` name, creating intermediate directories.
fn insert_file_exec(
    d: &mut Directory,
    comps: &Vec<String>,
    i: usize,
    name: &String,
    rec: FileRecord,
) -> (r: Result<(), CfsError>)
    requires
        i <= comps@.len(),
    ensures
        r is Ok <==> spec_can_insert(*old(d), comp_views(comps@).skip(i as int)),
        r is Ok ==> resolve_node(
            Node::Directory(*final(d)),
            comp_views(comps@).skip(i as int).push(name@),
        ) == Some(Node::File(rec)),
        r matches Err(e) ==> e is IsFile,
    decreases comps@.len() - i,
{
    if i == comps.len() {
        proof {
            assert(comp_views(comps@).skip(i as int).len() == 0);
        }
        let ghost rec0 = rec;
        match find_entry(&d.entries, name) {
            Some(idx) => {
                let ghost pre = d.entries@;
                d.entries[idx] = (name.clone(), Node::File(rec));
                proof {
                    assert(d.entries@[idx as int].0@ == name@);
                    assert(forall|q: int|
                        0 <= q < idx ==> (#[trigger] d.entries@[q]).0@ != name@);
                    lemma_entries_get_first(d.entries@, name@, idx as int);
                }
            },
            None => {
                let ghost pre = d.entries@;
                d.entries.push((name.clone(), Node::File(rec)));
                proof {
                    lemma_entries_get_push(
                        pre,
                        name@,
                        (d.entries@[pre.len() as int].0, Node::File(rec0)),
                    );
                    assert(d.entries@ =~= pre.push(d.entries@[pre.len() as int]));
                }
            },
        }
        proof {
            let cs = comp_views(comps@).skip(i as int).push(name@);
            assert(comp_views(comps@).skip(i as int) =~= Seq::<Seq<char>>::empty());
            assert(cs.len() == 1);
            assert(cs[0] == name@);
            assert(entries_get(final(d).entries@, name@) == Some(Node::File(rec0)));
            assert(cs.drop_first() =~= Seq::<Seq<char>>::empty());
            assert(resolve_node(Node::File(rec0), cs.drop_first()) == Some(
                Node::File(rec0),
            ));
        }
        Ok(())
    } else {
        let key = &comps[i];
        proof {
            assert(comp_views(comps@).skip(i as int)[0] == key@);
            assert(comp_views(comps@).skip(i as int).drop_first() =~= comp_views(
                comps@,
            ).skip(i + 1));
        }
        let ghost created: bool;
        let idx: usize = match find_entry(&d.entries, key) {
            Some(idx) => {
                let is_dir = match &d.entries[idx].1 {
                    Node::Directory(_) => true,
                    Node::File(_) => false,
                };
                if !is_dir {
                    proof {
                        assert(!spec_can_insert(*old(d), comp_views(comps@).skip(i as int)));
                    }
                    return Err(CfsError::IsFile(key.clone()));
                }
                proof {
                    created = false;
                }
                idx
            },
            None => {
                let ghost pre = d.entries@;
                d.entries.push((key.clone(), Node::Directory(Directory { entries: Vec::new() })));
                proof {
                    created = true;
                    assert(forall|q: int|
                        0 <= q < pre.len() ==> (#[trigger] d.entries@[q]).0@ == pre[q].0@);
                }
                d.entries.len() - 1
            },
        };
        proof {
            assert(d.entries@[idx as int].0@ == key@);
            assert(forall|q: int| 0 <= q < idx ==> (#[trigger] d.entries@[q]).0@ != key@);
        }
        let ghost mid = d.entries@;
        let e = &mut d.entries[idx];
        match &mut e.1 {
            Node::Directory(sub) => {
                let ghost sub0 = *sub;
                proof {
                    if created {
                        assert(sub0.entries@.len() == 0);
                        lemma_can_insert_empty(sub0, comp_views(comps@).skip(i + 1));
                        assert(entries_get(old(d).entries@, key@) is None);
                    } else {
                        assert(entries_get(old(d).entries@, key@) == Some(
                            Node::Directory(sub0),
                        ));
                    }
                }
                let res = insert_file_exec(sub, comps, i + 1, name, rec);
                match res {
                    Ok(()) => {
                        proof {
                            assert(final(d).entries@ == mid.update(idx as int, *final(e)));
                            assert(final(e).0@ == key@);
                            assert(forall|q: int|
                                0 <= q < idx ==> (#[trigger] final(d).entries@[q]).0@
                                    != key@);
                            lemma_entries_get_first(final(d).entries@, key@, idx as int);
                            let cs = comp_views(comps@).skip(i as int).push(name@);
                            assert(cs[0] == key@);
                            assert(cs.drop_first() =~= comp_views(comps@).skip(i + 1).push(
                                name@,
                            ));
                        }
                        Ok(())
                    },
                    Err(e2) => {
                        proof {
                            assert(!spec_can_insert(
                                *old(d),
                                comp_views(comps@).skip(i as int),
                            ));
                        }
                        Err(e2)
                    },
                }
            },
            Node::File(_) => {
                proof {
                    assert(!created);
                    assert(!spec_can_insert(*old(d), comp_views(comps@).skip(i as int)));
                }
                Err(CfsError::IsFile(key.clone()))
            },
        }
    }
}

/// `ensure_dir_exec` creates the directory chain the components from
/// index `i` name, reusing directories that already exist.
fn ensure_dir_exec(d: &mut Directory, comps: &Vec<String>, i: usize) -> (r: Result<
    (),
    CfsError,
>)
    requires
        i <= comps@.len(),
    ensures
        r is Ok <==> spec_can_insert(*old(d), comp_views(comps@).skip(i as int)),
        r is Ok ==> resolve_dir_spec(*final(d), comp_views(comps@).skip(i as int)) is Some,
        r matches Err(e) ==> e is IsFile,
    decreases comps@.len() - i,
{
    if i == comps.len() {
        proof {
            assert(comp_views(comps@).skip(i as int) =~= Seq::<Seq<char>>::empty());
        }
        return Ok(());
    }
    let key = &comps[i];
    proof {
        assert(comp_views(comps@).skip(i as int)[0] == key@);
        assert(comp_views(comps@).skip(i as int).drop_first() =~= comp_views(comps@).skip(
            i + 1,
        ));
    }
    let ghost created: bool;
    let idx: usize = match find_entry(&d.entries, key) {
        Some(idx) => {
            let is_dir = match &d.entries[idx].1 {
                Node::Directory(_) => true,
                Node::File(_) => false,
            };
            if !is_dir {
                proof {
                    assert(!spec_can_insert(*old(d), comp_views(comps@).skip(i as int)));
                }
                return Err(CfsError::IsFile(key.clone()));
            }
            proof {
                created = false;
            }
            idx
        },
        None => {
            let ghost pre = d.entries@;
            d.entries.push((key.clone(), Node::Directory(Directory { entries: Vec::new() })));
            proof {
                created = true;
                assert(forall|q: int|
                    0 <= q < pre.len() ==> (#[trigger] d.entries@[q]).0@ == pre[q].0@);
            }
            d.entries.len() - 1
        },
    };
    proof {
        assert(d.entries@[idx as int].0@ == key@);
        assert(forall|q: int| 0 <= q < idx ==> (#[trigger] d.entries@[q]).0@ != key@);
    }
    let ghost mid = d.entries@;
    let e = &mut d.entries[idx];
    match &mut e.1 {
        Node::Directory(sub) => {
            let ghost sub0 = *sub;
            proof {
                if created {
                    assert(sub0.entries@.len() == 0);
                    lemma_can_insert_empty(sub0, comp_views(comps@).skip(i + 1));
                    assert(entries_get(old(d).entries@, key@) is None);
                } else {
                    assert(entries_get(old(d).entries@, key@) == Some(
                        Node::Directory(sub0),
                    ));
                }
            }
            let res = ensure_dir_exec(sub, comps, i + 1);
            match res {
                Ok(()) => {
                    proof {
                        assert(final(d).entries@ == mid.update(idx as int, *final(e)));
                        assert(final(e).0@ == key@);
                        assert(forall|q: int|
                            0 <= q < idx ==> (#[trigger] final(d).entries@[q]).0@ != key@);
                        lemma_entries_get_first(final(d).entries@, key@, idx as int);
                        let cs = comp_views(comps@).skip(i as int);
                        assert(cs[0] == key@);
                        assert(cs.drop_first() =~= comp_views(comps@).skip(i + 1));
                    }
                    Ok(())
                },
                Err(e2) => {
                    proof {
                        assert(!spec_can_insert(*old(d), comp_views(comps@).skip(i as int)));
                    }
                    Err(e2)
                },
            }
        },
        Node::File(_) => {
            proof {
                assert(!created);
                assert(!spec_can_insert(*old(d), comp_views(comps@).skip(i as int)));
            }
            Err(CfsError::IsFile(key.clone()))
        },
    }
}

impl ChecksumFs {
    /// `mkdir_all` creates every directory on the path, reusing the ones
    /// that already exist.
    pub fn mkdir_all(&mut self, path: &str) -> (r: Result<(), CfsError>)
        ensures
            r is Ok <==> (!spec_has_parent(path@) && spec_can_insert(
                old(self).root,
                spec_components(path@),
            )),
            r is Ok ==> resolve_dir_spec(final(self).root, spec_components(path@)) is Some,
    {
        let comps = match normalize_components(path) {
            Ok(cs) => cs,
            Err(e) => {
                return Err(e);
            },
        };
        proof {
            assert(comp_views(comps@).skip(0) =~= comp_views(comps@));
        }
        ensure_dir_exec(&mut self.root, &comps, 0)
    }

    /// `write_file` stores the given bytes under the path, computing and
    /// recording their digest; intermediate directories are created.
    pub fn write_file(&mut self, path: &str, data: &[u8]) -> (r: Result<
        FileMetadata,
        CfsError,
    >)
        requires
            data@.len() <= u64::MAX,
        ensures
            r is Ok <==> (!spec_has_parent(path@) && spec_components(path@).len() > 0
                && spec_can_insert(old(self).root, spec_components(path@).drop_last())),
            r matches Ok(meta) ==> ({
                &&& meta.size == data@.len()
                &&& meta.checksum@ == digest_of(data@)
                &&& final(self).spec_lookup(spec_components(path@)) matches Some(
                    Node::File(rec),
                ) && rec.data@ == data@ && rec.checksum@ == digest_of(data@) && rec.size
                    == data@.len()
            }),
    {
        let mut comps = match normalize_components(path) {
            Ok(cs) => cs,
            Err(e) => {
                return Err(e);
            },
        };
        if comps.len() == 0 {
            return Err(CfsError::EmptyPath);
        }
        let ghost full = comp_views(comps@);
        let name = match comps.pop() {
            Some(n) => n,
            None => {
                return Err(CfsError::EmptyPath);
            },
        };
        let checksum = sha256_of(data);
        let bytes = vstd::slice::slice_to_vec(data);
        let rec = FileRecord { data: bytes, checksum, size: data.len() as u64 };
        let ghost rec0 = rec;
        proof {
            assert(comp_views(comps@).skip(0) =~= comp_views(comps@));
            assert(comp_views(comps@).push(name@) =~= full);
            assert(full == spec_components(path@));
            assert(comp_views(comps@) =~= full.drop_last());
        }
        match insert_file_exec(&mut self.root, &comps, 0, &name, rec) {
            Ok(()) => Ok(FileMetadata { size: data.len() as u64, checksum }),
            Err(e) => Err(e),
        }
    }

    /// `metadata` reports the named node: the root when the path has no
    /// components, otherwise the file's size and digest or the fact that
    /// the node is a directory.
    pub fn metadata(&self, path: &str) -> (r: Result<DirEntry, CfsError>)
        ensures
            r matches Ok(e) ==> ({
                let cs = spec_components(path@);
                &&& (cs.len() == 0 ==> e.is_dir && e.metadata is None)
                &&& (cs.len() > 0 ==> ({
                    &&& self.spec_lookup(cs) matches Some(node)
                    &&& e.name@ == cs[cs.len() - 1]
                    &&& (node matches Node::File(rec) ==> !e.is_dir && e.metadata == Some(
                        FileMetadata { size: rec.size, checksum: rec.checksum },
                    ))
                    &&& (node matches Node::Directory(dd) ==> e.is_dir && e.metadata is None)
                }))
            }),
    {
        let comps = match normalize_components(path) {
            Ok(cs) => cs,
            Err(e) => {
                return Err(e);
            },
        };
        if comps.len() == 0 {
            let mut root_name = String::new();
            append_str(&mut root_name, "/");
            return Ok(DirEntry { name: root_name, is_dir: true, metadata: None });
        }
        let last = comps.len() - 1;
        let ghost cs = comp_views(comps@);
        proof {
            assert(cs.take(last as int).skip(0) =~= cs.take(last as int));
        }
        let parent = match self.resolve_parent(&comps, last) {
            Ok(p) => p,
            Err(e) => {
                return Err(e);
            },
        };
        let name = &comps[last];
        match find_entry(&parent.entries, name) {
            Some(idx) => {
                proof {
                    Self::lemma_resolve_split(self.root, cs, last as int);
                }
                match &parent.entries[idx].1 {
                    Node::File(rec) => Ok(
                        DirEntry {
                            name: name.clone(),
                            is_dir: false,
                            metadata: Some(
                                FileMetadata { size: rec.size, checksum: rec.checksum },
                            ),
                        },
                    ),
                    Node::Directory(_) => Ok(
                        DirEntry { name: name.clone(), is_dir: true, metadata: None },
                    ),
                }
            },
            None => Err(CfsError::NotFound(name.clone())),
        }
    }

    /// `list_dir` lists the named directory's children with their
    /// metadata.
    pub fn list_dir(&self, path: &str) -> (r: Result<Vec<DirEntry>, CfsError>)
        ensures
            r matches Ok(v) ==> ({
                &&& resolve_dir_spec(self.root, spec_components(path@)) matches Some(d)
                &&& v@.len() == d.entries@.len()
                &&& forall|q: int|
                    0 <= q < v@.len() ==> ({
                        let (nm, node) = #[trigger] d.entries@[q];
                        &&& v@[q].name@ == nm@
                        &&& (node matches Node::File(rec) ==> !v@[q].is_dir && v@[q].metadata
                            == Some(
                            FileMetadata { size: rec.size, checksum: rec.checksum },
                        ))
                        &&& (node matches Node::Directory(dd) ==> v@[q].is_dir && v@[
                            q].metadata is None)
                    })
            }),
            r is Ok <==> (!spec_has_parent(path@) && resolve_dir_spec(
                self.root,
                spec_components(path@),
            ) is Some),
    {
        let comps = match normalize_components(path) {
            Ok(cs) => cs,
            Err(e) => {
                return Err(e);
            },
        };
        proof {
            assert(comp_views(comps@).skip(0) =~= comp_views(comps@));
        }
        let dir = match resolve_dir_exec(&self.root, &comps, 0) {
            Ok(dd) => dd,
            Err(e) => {
                return Err(e);
            },
        };
        let mut out: Vec<DirEntry> = Vec::new();
        let mut q: usize = 0;
        while q < dir.entries.len()
            invariant
                q <= dir.entries@.len(),
                out@.len() == q,
                forall|t: int|
                    0 <= t < q ==> ({
                        let (nm, node) = #[trigger] dir.entries@[t];
                        &&& out@[t].name@ == nm@
                        &&& (node matches Node::File(rec) ==> !out@[t].is_dir && out@[
                            t].metadata == Some(
                            FileMetadata { size: rec.size, checksum: rec.checksum },
                        ))
                        &&& (node matches Node::Directory(dd) ==> out@[t].is_dir && out@[
                            t].metadata is None)
                    }),
            decreases dir.entries@.len() - q,
        {
            let nm = dir.entries[q].0.clone();
            match &dir.entries[q].1 {
                Node::File(rec) => {
                    out.push(
                        DirEntry {
                            name: nm,
                            is_dir: false,
                            metadata: Some(
                                FileMetadata { size: rec.size, checksum: rec.checksum },
                            ),
                        },
                    );
                },
                Node::Directory(_) => {
                    out.push(DirEntry { name: nm, is_dir: true, metadata: None });
                },
            }
            q = q + 1;
        }
        Ok(out)
    }
}

proof fn lemma_resolve_split_helper(root: Directory, cs: Seq<Seq<char>>, last: int)
    requires
        0 <= last < cs.len(),
        cs.len() == last + 1,
    ensures
        resolve_node(Node::Directory(root), cs) == (match resolve_dir_spec(
            root,
            cs.take(last),
        ) {
            Some(p) => match entries_get(p.entries@, cs[last]) {
                Some(child) => Some(child),
                None => None,
            },
            None => None,
        }),
    decreases last,
{
    if last == 0 {
        assert(cs.take(0) =~= Seq::<Seq<char>>::empty());
        assert(cs.drop_first() =~= Seq::<Seq<char>>::empty());
        match entries_get(root.entries@, cs[0]) {
            Some(child) => {
                assert(resolve_node(child, cs.drop_first()) == Some(child));
            },
            None => {},
        }
    } else {
        assert(cs.take(last).len() == last);
        assert(cs.take(last)[0] == cs[0]);
        match entries_get(root.entries@, cs[0]) {
            Some(Node::Directory(sub)) => {
                lemma_resolve_split_helper(sub, cs.drop_first(), last - 1);
                assert(cs.drop_first().take(last - 1) =~~= cs.take(last).drop_first());
                assert(cs.drop_first()[last - 1] == cs[last]);
                assert(resolve_node(Node::Directory(root), cs) == resolve_node(
                    Node::Directory(sub),
                    cs.drop_first(),
                ));
                assert(resolve_dir_spec(root, cs.take(last)) == resolve_dir_spec(
                    sub,
                    cs.take(last).drop_first(),
                ));
            },
            _ => {
                match entries_get(root.entries@, cs[0]) {
                    Some(child) => {
                        assert(cs.drop_first().len() > 0);
                        assert(resolve_node(child, cs.drop_first()) is None);
                    },
                    None => {},
                }
                assert(resolve_node(Node::Directory(root), cs) is None);
                assert(resolve_dir_spec(root, cs.take(last)) is None);
            },
        }
    }
}

} // verus!
