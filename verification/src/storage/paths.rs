//! Where blobs and staged uploads live.
//!
//! Every path is a pure function of a digest or of an opaque upload id. Nothing
//! encodes a relationship, nothing is ever listed, and no answer is ever derived
//! from what happens to be on disk.
use vstd::prelude::*;

use crate::digest::{digest_extensional, digest_text_is_plain, Digest};
use crate::text::{
    chars_of, digit_char, hex, hex_encode, last_index, lemma_last_index, lemma_last_index_bounds,
    rfind_char, str_eq,
};

verus! {

pub const BLOBS_DIR: &'static str = "blobs";

pub const UPLOADS_DIR: &'static str = "uploads";

/// Fan-out levels of two hex characters each, before the file itself.
pub const FANOUT_LEVELS: usize = 3;

/// A path one level below another. One that is empty, or ends in a slash, takes
/// no further slash.
pub open spec fn joined(dir: Seq<char>, name: Seq<char>) -> Seq<char> {
    if dir.len() == 0 || dir.last() == '/' {
        dir + name
    } else {
        dir + seq!['/'] + name
    }
}

/// The directory a blob lives in: its algorithm, then the first three bytes of
/// its hash, a level each.
pub open spec fn blob_dir(root: Seq<char>, d: Digest) -> Seq<char> {
    let h = hex(d.raw_bytes());
    joined(
        joined(
            joined(joined(joined(root, "blobs"@), d.algorithm_name()), h.subrange(0, 2)),
            h.subrange(2, 4),
        ),
        h.subrange(4, 6),
    )
}

/// The file a blob is.
pub open spec fn blob_file(root: Seq<char>, d: Digest) -> Seq<char> {
    joined(blob_dir(root, d), hex(d.raw_bytes()))
}

/// The file an upload is staged in.
pub open spec fn upload_file(root: Seq<char>, id: Seq<char>) -> Seq<char> {
    joined(joined(root, "uploads"@), id)
}

/// The path above one: everything before its last slash.
pub open spec fn parent_of(path: Seq<char>) -> Option<Seq<char>> {
    let i = last_index(path, '/');
    if path.len() == 0 || path == "/"@ {
        None
    } else if i < 0 {
        Some(Seq::empty())
    } else if i == 0 {
        Some("/"@)
    } else {
        Some(path.subrange(0, i))
    }
}

/// A path one level below another.
pub fn join(dir: &str, name: &str) -> (r: String)
    ensures
        r@ == joined(dir@, name@),
{
    let chars = chars_of(dir);
    let n: usize = chars.len();
    let mut out = dir.to_owned();
    if n > 0 && chars[n - 1] != '/' {
        proof {
            reveal_strlit("/");
            assert("/"@ =~= seq!['/']);
        }
        out.append("/");
    }
    out.append(name);
    out
}

/// `<root>/blobs/<algo>/ab/cd/ef/<full-hex>`.
///
/// Returned alongside its parent so a caller that is about to create the
/// directory does not have to ask for it a second time.
pub fn blob_path(root: &str, digest: &Digest) -> (r: (String, String))
    ensures
        r.0@ == blob_dir(root@, *digest),
        r.1@ == blob_file(root@, *digest),
{
    let h = hex_encode(digest.raw());
    assert(h@.len() >= 64);
    let mut dir = join(root, BLOBS_DIR);
    dir = join(dir.as_str(), digest.algorithm());
    dir = join(dir.as_str(), h.as_str().substring_char(0, 2));
    dir = join(dir.as_str(), h.as_str().substring_char(2, 4));
    dir = join(dir.as_str(), h.as_str().substring_char(4, 6));
    let file = join(dir.as_str(), h.as_str());
    (dir, file)
}

/// `<root>/uploads/<id>`.
pub fn upload_path(root: &str, id: &str) -> (r: String)
    ensures
        r@ == upload_file(root@, id@),
{
    join(join(root, UPLOADS_DIR).as_str(), id)
}

/// The path above one.
pub fn parent(path: &str) -> (r: Option<String>)
    ensures
        r.deep_view() == parent_of(path@),
{
    let chars = chars_of(path);
    proof {
        lemma_last_index_bounds(path@, '/');
    }
    if chars.len() == 0 || str_eq(path, "/") {
        return None;
    }
    match rfind_char(chars.as_slice(), '/') {
        None => {
            let out = String::new();
            Some(out)
        },
        Some(0) => Some("/".to_owned()),
        Some(i) => Some(path.substring_char(0, i).to_owned()),
    }
}

/// Hexadecimal digits are known by their value.
proof fn lemma_digit_injective(a: int, b: int)
    requires
        0 <= a < 16,
        0 <= b < 16,
        digit_char(a) == digit_char(b),
    ensures
        a == b,
{
}

/// Bytes are known by their hexadecimal text.
pub proof fn hex_is_injective(a: Seq<u8>, b: Seq<u8>)
    requires
        hex(a) == hex(b),
    ensures
        a == b,
{
    assert(hex(a).len() == 2 * a.len() && hex(b).len() == 2 * b.len());
    assert forall|i: int| 0 <= i < a.len() implies a[i] == b[i] by {
        let (x, y) = (2 * i, 2 * i + 1);
        assert(x / 2 == i && x % 2 == 0 && y / 2 == i && y % 2 == 1);
        assert(hex(a)[x] == digit_char(a[i] as int / 16));
        assert(hex(b)[x] == digit_char(b[i] as int / 16));
        assert(hex(a)[y] == digit_char(a[i] as int % 16));
        assert(hex(b)[y] == digit_char(b[i] as int % 16));
        lemma_digit_injective(a[i] as int / 16, b[i] as int / 16);
        lemma_digit_injective(a[i] as int % 16, b[i] as int % 16);
    }
    assert(a =~= b);
}

/// Hexadecimal text holds no slash.
proof fn lemma_hex_has_no_slash(b: Seq<u8>, i: int)
    requires
        0 <= i < 2 * b.len(),
    ensures
        hex(b)[i] != '/',
{
    let d = if i % 2 == 0 {
        b[i / 2] as int / 16
    } else {
        b[i / 2] as int % 16
    };
    assert(0 <= d < 16);
}

/// The name at the end of a path one level below another is the name given.
proof fn lemma_joined_name(dir: Seq<char>, name: Seq<char>)
    requires
        dir.len() > 0,
        forall|i: int| 0 <= i < name.len() ==> name[i] != '/',
    ensures
        last_index(joined(dir, name), '/') == joined(dir, name).len() - name.len() - 1,
{
    let p = joined(dir, name);
    let n = p.len() - name.len();
    assert forall|k: int| n - 1 < k < p.len() implies p[k] != '/' by {
        assert(p[k] == name[k - n]);
    }
    lemma_last_index(p, '/', n - 1);
}

/// Different blobs are different files.
pub proof fn blobs_have_their_own_files(root: Seq<char>, a: Digest, b: Digest)
    requires
        blob_file(root, a) == blob_file(root, b),
    ensures
        a == b,
{
    let (x, y) = (hex(a.raw_bytes()), hex(b.raw_bytes()));
    reveal_strlit("blobs");
    reveal_strlit("sha256");
    reveal_strlit("sha512");
    assert forall|i: int| 0 <= i < x.len() implies x[i] != '/' by {
        lemma_hex_has_no_slash(a.raw_bytes(), i);
    }
    assert forall|i: int| 0 <= i < y.len() implies y[i] != '/' by {
        lemma_hex_has_no_slash(b.raw_bytes(), i);
    }
    lemma_joined_name(blob_dir(root, a), x);
    lemma_joined_name(blob_dir(root, b), y);
    let p = blob_file(root, a);
    let n = p.len() as int;
    assert(x =~= p.subrange(n - x.len(), n));
    assert(y =~= p.subrange(n - y.len(), n));
    hex_is_injective(a.raw_bytes(), b.raw_bytes());
    digest_extensional(a, b);
}

// --- making directories durable ---------------------------------------------------

/// What the next move is in making a directory and the levels above it durable.
#[derive(Debug, PartialEq, Eq)]
pub enum DirMove {
    /// Ask whether this path exists.
    Probe(String),
    /// Create this level.
    Create(String),
    /// Sync this directory, so that the level just made survives a crash.
    Sync(String),
    /// Everything is in place.
    Done,
}

/// How creating a level went.
#[derive(Debug, Clone, Copy, PartialEq, Eq, Structural)]
pub enum Created {
    Made,
    /// Another writer was there first; what it left is a directory, or is not.
    AlreadyThere { is_dir: bool },
    Failed,
}

/// The making of a directory and of every missing level above it, up to a root
/// that is left alone.
///
/// Levels are found deepest first and made topmost first, each synced into its
/// parent before the one below it is made. A level another writer created first is
/// a success, not a failure: the check and the creation race by construction. What
/// is *not* absorbed is something other than a directory holding the name.
pub struct DirPlan {
    stop: String,
    cursor: Option<String>,
    missing: Vec<String>,
    syncing: bool,
}

impl DirPlan {
    /// The path being asked about, while levels are still being found.
    pub closed spec fn probing(self) -> Option<Seq<char>> {
        self.cursor.deep_view()
    }

    /// The levels found missing and not yet dealt with, deepest first.
    pub closed spec fn to_make(self) -> Seq<Seq<char>> {
        self.missing.deep_view()
    }

    /// Whether the last of them is made and waits for its parent to be synced.
    pub closed spec fn is_syncing(self) -> bool {
        self.syncing
    }

    /// The level at which the search ends.
    pub closed spec fn root(self) -> Seq<char> {
        self.stop@
    }

    pub open spec fn valid(self) -> bool {
        self.is_syncing() ==> self.to_make().len() > 0 && self.probing() is None
    }

    /// Begin with `dir`.
    pub fn new(dir: &str, stop: &str) -> (r: Self)
        ensures
            r.valid(),
            r.probing() == Some(dir@),
            r.to_make() == Seq::<Seq<char>>::empty(),
            !r.is_syncing(),
            r.root() == stop@,
    {
        let missing: Vec<String> = Vec::new();
        assert(missing.deep_view() =~= Seq::<Seq<char>>::empty());
        DirPlan { stop: stop.to_owned(), cursor: Some(dir.to_owned()), missing, syncing: false }
    }

    /// The next move.
    pub fn next_move(&self) -> (r: DirMove)
        requires
            self.valid(),
        ensures
            match r {
                DirMove::Probe(p) => self.probing() == Some(p@),
                DirMove::Create(p) => self.probing() is None && !self.is_syncing()
                    && self.to_make().len() > 0 && p@ == self.to_make().last(),
                DirMove::Sync(p) => self.is_syncing() && p@ == match parent_of(
                    self.to_make().last(),
                ) {
                    Some(above) => above,
                    None => self.to_make().last(),
                },
                DirMove::Done => self.probing() is None && self.to_make().len() == 0,
            },
    {
        if let Some(p) = &self.cursor {
            return DirMove::Probe(p.clone());
        }
        let n: usize = self.missing.len();
        assert(self.to_make().len() == n);
        if n == 0 {
            return DirMove::Done;
        }
        let level = self.missing[n - 1].as_str();
        assert(self.to_make().last() == level@);
        if self.syncing {
            match parent(level) {
                Some(above) => DirMove::Sync(above),
                None => DirMove::Sync(level.to_owned()),
            }
        } else {
            DirMove::Create(level.to_owned())
        }
    }

    /// Whether the path asked about exists. One that does, or that is the root,
    /// ends the search; any other is missing, and the search goes on above it.
    pub fn probed(&mut self, present: bool)
        requires
            old(self).valid(),
            old(self).probing() is Some,
        ensures
            final(self).valid(),
            final(self).root() == old(self).root(),
            !final(self).is_syncing(),
            ({
                let p = old(self).probing()->0;
                if present || p == old(self).root() {
                    final(self).probing() is None && final(self).to_make() == old(self).to_make()
                } else {
                    final(self).to_make() == old(self).to_make().push(p) && final(self).probing()
                        == match parent_of(p) {
                        Some(above) => if above == old(self).root() {
                            None
                        } else {
                            Some(above)
                        },
                        None => None,
                    }
                }
            }),
    {
        let p = match self.cursor.take() {
            Some(p) => p,
            None => return,
        };
        let ghost before = self.missing.deep_view();
        if present || str_eq(p.as_str(), self.stop.as_str()) {
            return;
        }
        match parent(p.as_str()) {
            Some(above) => {
                if !str_eq(above.as_str(), self.stop.as_str()) {
                    self.cursor = Some(above);
                }
            },
            None => {},
        }
        self.missing.push(p);
        assert(self.missing.deep_view() =~= before.push(p@));
    }

    /// How creating the topmost missing level went. `false` means that the plan
    /// fails there.
    pub fn created(&mut self, outcome: Created) -> (r: bool)
        requires
            old(self).valid(),
            old(self).probing() is None,
            !old(self).is_syncing(),
            old(self).to_make().len() > 0,
        ensures
            final(self).valid(),
            final(self).root() == old(self).root(),
            final(self).probing() is None,
            final(self).to_make() == old(self).to_make(),
            r == (outcome == Created::Made || outcome == (Created::AlreadyThere { is_dir: true })),
            final(self).is_syncing() == r,
    {
        let ok = match outcome {
            Created::Made => true,
            Created::AlreadyThere { is_dir } => is_dir,
            Created::Failed => false,
        };
        self.syncing = ok;
        ok
    }

    /// The level just made is durable; the one below it is next.
    pub fn synced(&mut self)
        requires
            old(self).valid(),
            old(self).is_syncing(),
        ensures
            final(self).valid(),
            final(self).root() == old(self).root(),
            final(self).probing() is None,
            !final(self).is_syncing(),
            final(self).to_make() == old(self).to_make().drop_last(),
    {
        let ghost before = self.missing.deep_view();
        let _ = self.missing.pop();
        assert(self.missing.deep_view() =~= before.drop_last());
        self.syncing = false;
    }
}

/// The path above an entry of a directory is the directory.
pub proof fn the_parent_of_an_entry_is_its_directory(dir: Seq<char>, name: Seq<char>)
    requires
        dir.len() > 0,
        dir.last() != '/',
        name.len() > 0,
        !name.contains('/'),
    ensures
        joined(dir, name) == dir + seq!['/'] + name,
        parent_of(joined(dir, name)) == Some(dir),
{
    reveal_strlit("/");
    let path = joined(dir, name);
    let n = dir.len() as int;
    assert forall|k: int| n < k < path.len() implies path[k] != '/' by {
        if path[k] == '/' {
            assert(name[k - n - 1] == '/');
            assert(name.contains('/'));
        }
    }
    lemma_last_index(path, '/', n);
    assert(path.subrange(0, n) =~= dir);
    assert(path.len() > "/"@.len());
}

/// A blob lies under its store's root, in a directory for its algorithm and three levels
/// for the first three bytes of its hash, in a file that is named by the whole hash. An
/// upload lies beside, under its identifier.
#[verifier::rlimit(40)]
pub proof fn files_lie_where_they_belong(root: Seq<char>, d: Digest, id: Seq<char>)
    requires
        root.len() > 0,
        root.last() != '/',
    ensures
        ({
            let h = hex(d.raw_bytes());
            &&& blob_file(root, d) == root + "/blobs/"@ + d.algorithm_name() + seq![
                '/',
                h[0],
                h[1],
                '/',
                h[2],
                h[3],
                '/',
                h[4],
                h[5],
                '/',
            ] + h
            &&& upload_file(root, id) == root + "/uploads/"@ + id
        }),
{
    reveal_strlit("blobs");
    reveal_strlit("uploads");
    reveal_strlit("/blobs/");
    reveal_strlit("/uploads/");
    reveal_strlit("sha256");
    reveal_strlit("sha512");
    let h = hex(d.raw_bytes());
    let a = d.algorithm_name();
    assert(h.len() >= 64);
    assert forall|i: int| 0 <= i < h.len() implies h[i] != '/' by {
        digest_text_is_plain(d, 7 + i);
        assert(d.text()[7 + i] == h[i]);
    }
    let p0 = root + seq!['/'] + "blobs"@;
    assert(joined(root, "blobs"@) == p0);
    let p1 = p0 + seq!['/'] + a;
    assert(p0.last() == 's');
    assert(joined(p0, a) == p1);
    assert(p1.last() == a.last() && a.last() != '/');
    let p2 = p1 + seq!['/'] + h.subrange(0, 2);
    assert(joined(p1, h.subrange(0, 2)) == p2);
    assert(p2.last() == h[1]);
    let p3 = p2 + seq!['/'] + h.subrange(2, 4);
    assert(joined(p2, h.subrange(2, 4)) == p3);
    assert(p3.last() == h[3]);
    let p4 = p3 + seq!['/'] + h.subrange(4, 6);
    assert(joined(p3, h.subrange(4, 6)) == p4);
    assert(p4.last() == h[5]);
    assert(joined(p4, h) == p4 + seq!['/'] + h);
    assert(p0 + seq!['/'] =~= root + "/blobs/"@);
    assert(p4 + seq!['/'] + h =~= root + "/blobs/"@ + a + seq![
        '/',
        h[0],
        h[1],
        '/',
        h[2],
        h[3],
        '/',
        h[4],
        h[5],
        '/',
    ] + h);
    let u = root + seq!['/'] + "uploads"@;
    assert(joined(root, "uploads"@) == u);
    assert(u.last() == 's');
    assert(u + seq!['/'] + id =~= root + "/uploads/"@ + id);
}

} // verus!
