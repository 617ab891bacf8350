use vstd::prelude::*;
use vstd::string::StringExecFns;
use crate::text::{chars_of, string_of};
use crate::chunking::opt_view;

verus! {

/// Names whose presence in a directory marks it as a project root.
pub fn project_markers() -> (r: Vec<String>)
    ensures
        r@.len() == 10,
        r@[0]@ == ".git"@,
        r@[1]@ == "package.json"@,
        r@[2]@ == "Cargo.toml"@,
        r@[3]@ == "pyproject.toml"@,
        r@[4]@ == "go.mod"@,
        r@[5]@ == "pom.xml"@,
        r@[6]@ == "build.gradle"@,
        r@[7]@ == ".project"@,
        r@[8]@ == "Gemfile"@,
        r@[9]@ == "composer.json"@,
{
    vec![
        String::from_str(".git"),
        String::from_str("package.json"),
        String::from_str("Cargo.toml"),
        String::from_str("pyproject.toml"),
        String::from_str("go.mod"),
        String::from_str("pom.xml"),
        String::from_str("build.gradle"),
        String::from_str(".project"),
        String::from_str("Gemfile"),
        String::from_str("composer.json"),
    ]
}

/// `dir` and `name` joined by one `/`.
pub open spec fn spec_join(dir: Seq<char>, name: Seq<char>) -> Seq<char> {
    if dir.len() > 0 && dir.last() == '/' { dir + name } else if dir.len() == 0 { name } else { dir + seq!['/'] + name }
}

/// `dir` and `name` joined by one `/`.
pub fn join_path(dir: &str, name: &str) -> (r: String)
    ensures
        r@ == spec_join(dir@, name@),
{
    let d = chars_of(dir);
    let n = d.len();
    let mut out = String::from_str(dir);
    if n > 0 && d[n - 1] != '/' {
        proof { reveal_strlit("/"); }
        out.append("/");
    }
    out.append(name);
    out
}

/// `p[st..e]` is the last component of `p`: `e` is where its trailing `/`
/// start, `st` just after the `/` before that.
pub open spec fn last_component_bounds(p: Seq<char>, st: int, e: int) -> bool {
    &&& 0 <= st <= e <= p.len()
    &&& forall|k: int| e <= k < p.len() ==> p[k] == '/'
    &&& (e == 0 || p[e - 1] != '/')
    &&& forall|k: int| st <= k < e ==> p[k] != '/'
    &&& (st == 0 || p[st - 1] == '/')
}

/// The last component of `path`: the text after its last `/` once
/// trailing `/` are dropped, or nothing when that is empty or `..`.
/// `r` is the last component of `p` (see `file_name`).
pub open spec fn names_file(p: Seq<char>, r: Option<Seq<char>>) -> bool {
    exists|st: int, e: int| last_component_bounds(p, st, e) && ({
        let c = p.subrange(st, e);
        if c.len() == 0 || c == ".."@ { r is None } else { r == Some(c) }
    })
}

pub fn file_name(path: &str) -> (r: Option<String>)
    ensures
        names_file(path@, opt_view(r)),
{
    let v = chars_of(path);
    let mut end = v.len();
    while end > 0 && v[end - 1] == '/'
        invariant
            end <= v@.len(),
            v@ == path@,
            forall|k: int| end <= k < v@.len() ==> v@[k] == '/',
        decreases end,
    {
        end = end - 1;
    }
    let mut start = end;
    while start > 0 && v[start - 1] != '/'
        invariant
            start <= end <= v@.len(),
            forall|k: int| start <= k < end ==> v@[k] != '/',
        decreases start,
    {
        start = start - 1;
    }
    assert(last_component_bounds(path@, start as int, end as int));
    let ghost c = path@.subrange(start as int, end as int);
    proof { reveal_strlit(".."); }
    if start == end || (end - start == 2 && v[start] == '.' && v[start + 1] == '.') {
        proof {
            if start != end {
                assert(c =~= ".."@);
            }
        }
        assert(names_file(path@, None));
        return None;
    }
    assert(c != ".."@) by {
        if c.len() == 2 {
            assert(c[0] == v@[start as int] && c[1] == v@[start + 1]);
        }
    }
    let s = string_of(&v, start, end);
    assert(opt_view(Some(s)) == Some(c));
    Some(s)
}

/// `path` and each directory above it, nearest first, up to the root.
pub fn ancestors(path: &str) -> (r: Vec<String>)
    ensures
        path@.len() > 0 ==> r@.len() > 0 && r@[0]@ == path@,
        forall|k: int| 0 <= k < r@.len() ==> (#[trigger] r@[k])@.len() <= path@.len(),
{
    let v = chars_of(path);
    let mut out: Vec<String> = Vec::new();
    let mut end = v.len();
    if end == 0 {
        return out;
    }
    out.push(String::from_str(path));
    loop
        invariant
            0 < end <= v@.len(),
            v@ == path@,
            out@.len() > 0 && out@[0]@ == path@,
            forall|k: int| 0 <= k < out@.len() ==> (#[trigger] out@[k])@.len() <= path@.len(),
        decreases end,
    {
        // drop trailing separators, then the last component
        let mut e = end;
        while e > 1 && v[e - 1] == '/'
            invariant
                0 < e <= end <= v@.len(),
            decreases e,
        {
            e = e - 1;
        }
        if e == 1 && v[0] == '/' {
            return out;
        }
        let mut s = e;
        while s > 0 && v[s - 1] != '/'
            invariant
                s <= e <= v@.len(),
            decreases s,
        {
            s = s - 1;
        }
        if s == 0 {
            return out;
        }
        let mut p = s;
        while p > 1 && v[p - 1] == '/'
            invariant
                0 < p <= s <= v@.len(),
            decreases p,
        {
            p = p - 1;
        }
        out.push(string_of(&v, 0, p));
        if p >= end {
            return out;
        }
        end = p;
    }
}

/// Whether some line of `v` (see `split_lines_from`), trimmed, is
/// `.coderag/` or `.coderag`.
pub open spec fn ignores_store(v: Seq<char>) -> bool {
    let spans = crate::chunking::split_lines_from(v, 0, 0);
    exists|q: int| 0 <= q < spans.len() && ({
        let t = crate::text::trim(v.subrange((#[trigger] spans[q]).0 as int, spans[q].1 as int));
        t == ".coderag/"@ || t == ".coderag"@
    })
}

/// The ignore-file text that also ignores the store directory: nothing
/// when a line already names it; else the text, a line feed if it does
/// not end with one, then a comment line and `.coderag/`.
pub fn gitignore_with_store(content: &str) -> (r: Option<String>)
    ensures
        ignores_store(content@) ==> r is None,
        !ignores_store(content@) ==> (r matches Some(t) && t@ == content@
            + (if content@.len() > 0 && content@.last() != '\n' { seq!['\n'] } else { Seq::<char>::empty() })
            + "\n# CodeRAG vector database\n.coderag/\n"@),
{
    let v = chars_of(content);
    let lines = crate::chunking::line_ranges(&v);
    let dir = chars_of(".coderag/");
    let bare = chars_of(".coderag");
    let mut q: usize = 0;
    while q < lines.len()
        invariant
            q <= lines@.len(),
            v@ == content@,
            dir@ == ".coderag/"@,
            bare@ == ".coderag"@,
            lines@ == crate::chunking::split_lines_from(v@, 0, 0),
            forall|m: int| 0 <= m < lines@.len() ==> (#[trigger] lines@[m]).0 <= lines@[m].1 <= v@.len(),
            forall|m: int| 0 <= m < q ==> ({
                let t = crate::text::trim(v@.subrange((#[trigger] lines@[m]).0 as int, lines@[m].1 as int));
                t != ".coderag/"@ && t != ".coderag"@
            }),
        decreases lines@.len() - q,
    {
        let (lo, hi) = lines[q];
        let (a, b) = crate::text::trim_range(&v, lo, hi);
        proof { crate::text::lemma_trims_to_trim(v@, lo as int, hi as int, a as int, b as int); }
        let t = string_of(&v, a, b);
        let tv = chars_of(t.as_str());
        if crate::crawler::eq_literal(&tv, ".coderag/") || crate::crawler::eq_literal(&tv, ".coderag") {
            return None;
        }
        q = q + 1;
    }
    let mut out = String::from_str(content);
    let n = v.len();
    if n > 0 && v[n - 1] != '\n' {
        proof { reveal_strlit("\n"); }
        out.append("\n");
    }
    out.append("\n# CodeRAG vector database\n.coderag/\n");
    Some(out)
}

/// Where a project keeps its store, relative to its root.
pub open spec fn project_store(root: Seq<char>) -> Seq<char> {
    spec_join(spec_join(root, ".coderag"@), "vectordb.json"@)
}

/// Decides where the store lives: inside the project, when there is one,
/// else in a directory shared by all projects.
pub struct ProjectManager {
    pub global_data_dir: String,
}

/// Where the store of the current context lives.
#[derive(Debug, Clone)]
pub struct ProjectInfo {
    pub is_project: bool,
    pub project_root: Option<String>,
    pub database_path: String,
    pub project_name: Option<String>,
}

impl ProjectManager {
    pub fn new(global_data_dir: String) -> (r: ProjectManager)
        ensures
            r.global_data_dir == global_data_dir,
    {
        ProjectManager { global_data_dir }
    }

    /// The store's path: `<root>/.coderag/vectordb.json` in a project,
    /// else `coderag_vectordb.json` in the shared directory.
    pub fn get_database_path(&self, project_root: &Option<String>) -> (r: String)
        ensures
            match project_root {
                Some(root) => r@ == project_store(root@),
                None => r@ == spec_join(self.global_data_dir@, "coderag_vectordb.json"@),
            },
    {
        match project_root {
            Some(root) => {
                let dir = join_path(root.as_str(), ".coderag");
                join_path(dir.as_str(), "vectordb.json")
            },
            None => join_path(self.global_data_dir.as_str(), "coderag_vectordb.json"),
        }
    }

    /// The context given the detected project root, if any.
    pub fn get_project_info(&self, project_root: Option<String>) -> (r: ProjectInfo)
        ensures
            r.is_project == project_root is Some,
            r.project_root == project_root,
            project_root matches Some(root) ==> names_file(root@, opt_view(r.project_name)),
            match project_root {
                Some(root) => r.database_path@ == project_store(root@),
                None => r.database_path@ == spec_join(self.global_data_dir@, "coderag_vectordb.json"@)
                    && r.project_name is None,
            },
    {
        let database_path = self.get_database_path(&project_root);
        match project_root {
            Some(root) => {
                let project_name = file_name(root.as_str());
                ProjectInfo { is_project: true, project_root: Some(root), database_path, project_name }
            },
            None => ProjectInfo { is_project: false, project_root: None, database_path, project_name: None },
        }
    }
}

} // verus!
