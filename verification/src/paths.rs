//! Where a project keeps its memory.

use crate::text;
use crate::text::{byte_len, cat2, decimal_text};
use vstd::prelude::*;

verus! {

/// The files of a project's memory.
#[derive(Debug, Clone)]
pub struct Paths {
    pub dir: String,
    pub wal: String,
    pub sidecar: String,
    pub sock: String,
    pub last_sleep: String,
}

/// A directory on the way up from where the search starts.
pub struct Ancestor {
    pub path: String,
    /// It holds a directory `.psyrag`.
    pub has_memory: bool,
    /// It holds `.git`.
    pub has_git: bool,
}

/// Whether a project is rooted in a directory.
pub open spec fn is_root(a: Ancestor) -> bool {
    a.has_memory || a.has_git
}

/// A name in a directory.
pub open spec fn joined(dir: Seq<char>, name: Seq<char>) -> Seq<char> {
    if dir.len() > 0 && dir.last() == '/' {
        dir + name
    } else {
        dir + "/"@ + name
    }
}

fn join(dir: &str, name: &str) -> (res: String)
    ensures
        res@ == joined(dir@, name@),
{
    let n: usize = dir.unicode_len();
    if n > 0 && dir.get_char(n - 1) == '/' {
        cat2(dir, name)
    } else {
        let d = cat2(dir, "/");
        cat2(d.as_str(), name)
    }
}

impl Paths {
    /// The files of a project that is rooted in `root`.
    pub open spec fn rooted(&self, root: Seq<char>) -> bool {
        let dir = joined(root, ".psyrag"@);
        &&& self.dir@ == dir
        &&& self.wal@ == joined(dir, "mem.wal"@)
        &&& self.sidecar@ == joined(dir, "mem.wal.psyrag.json"@)
        &&& self.sock@ == joined(dir, "mcp.sock"@)
        &&& self.last_sleep@ == joined(dir, "last_sleep"@)
    }
}

/// The first directory from `i` on that a project is rooted in.
pub open spec fn root_from(ups: Seq<Ancestor>, i: int) -> Option<Seq<char>>
    decreases ups.len() - i,
{
    if i < 0 || i >= ups.len() {
        None
    } else if is_root(ups[i]) {
        Some(ups[i].path@)
    } else {
        root_from(ups, i + 1)
    }
}

/// Finds a project's memory, given the directories from where the search starts
/// upward: it lies in the first that holds `.psyrag` or `.git`, so that every
/// directory of a project leads to the same files.
pub fn resolve(ups: &Vec<Ancestor>) -> (res: Result<Paths, String>)
    ensures
        match res {
            Ok(p) => root_from(ups@, 0) matches Some(root) && p.rooted(root),
            Err(e) => root_from(ups@, 0) is None && e@
                == "no .psyrag/ or .git/ found from cwd upward; run inside a project"@,
        },
{
    let mut i: usize = 0;
    while i < ups.len()
        invariant
            i <= ups@.len(),
            root_from(ups@, 0) == root_from(ups@, i as int),
        decreases ups@.len() - i,
    {
        if ups[i].has_memory || ups[i].has_git {
            let dir = join(ups[i].path.as_str(), ".psyrag");
            let d = dir.as_str();
            return Ok(
                Paths {
                    wal: join(d, "mem.wal"),
                    sidecar: join(d, "mem.wal.psyrag.json"),
                    sock: join(d, "mcp.sock"),
                    last_sleep: join(d, "last_sleep"),
                    dir,
                },
            );
        }
        i += 1;
    }
    Err("no .psyrag/ or .git/ found from cwd upward; run inside a project".to_owned())
}

/// Why a socket cannot be made at a path: systems limit its length.
pub open spec fn too_long(sock: Seq<char>) -> Seq<char> {
    "socket path too long for this platform ("@ + text::decimal(text::utf8_len(sock))
        + " bytes): "@ + sock + ". Move the repo to a shorter path."@
}

/// Whether a socket can be made at a path, or why not.
pub fn check_socket(sock: &str) -> (res: Result<(), String>)
    ensures
        match res {
            Ok(_) => text::utf8_len(sock@) <= 100,
            Err(e) => text::utf8_len(sock@) > 100 && e@ == too_long(sock@),
        },
{
    let n: usize = byte_len(sock);
    if n <= 100 {
        return Ok(());
    }
    let mut s = "socket path too long for this platform (".to_owned();
    let count = decimal_text(n as u64);
    s.append(count.as_str());
    s.append(" bytes): ");
    s.append(sock);
    s.append(". Move the repo to a shorter path.");
    assert(s@ =~= too_long(sock@));
    Err(s)
}

/// From anywhere inside a project the search leads to the same files: starting
/// further up, but not above the root, finds the same root.
pub proof fn same_root_from_anywhere_inside(ups: Seq<Ancestor>, i: int)
    requires
        0 <= i <= ups.len(),
        forall|j: int| 0 <= j < i ==> !is_root(#[trigger] ups[j]),
    ensures
        root_from(ups, 0) == root_from(ups, i),
    decreases i,
{
    if i > 0 {
        same_root_from_anywhere_inside(ups, i - 1);
        assert(!is_root(ups[i - 1]));
    }
}

} // verus!
