use vstd::prelude::*;
use vstd::string::StrSliceExecFns;
use vstd::string::StringExecFns;

verus! {

/// Relies on std::path::Path::exists: true iff the path names an existing
/// filesystem entry, as the OS reports it at the time of the call. The
/// answer depends on the machine's state, so nothing is promised of it.
#[verifier::external_body]
fn path_exists(p: &str) -> bool {
    std::path::Path::new(p).exists()
}

/// Relies on std::path::Path::is_dir: true iff the path names an existing
/// directory, as the OS reports it at the time of the call. The answer
/// depends on the machine's state, so nothing is promised of it.
#[verifier::external_body]
pub(crate) fn path_is_dir(p: &str) -> bool {
    std::path::Path::new(p).is_dir()
}

/// Whether `path` is a work directory: it contains the `.littera` marker
/// subdirectory. The answer reflects the filesystem at the time of the
/// call.
pub fn is_littera_work(path: &str) -> bool {
    let marker = path.to_owned().concat("/.littera");
    path_is_dir(marker.as_str())
}

/// The trailing non-separator characters of a path removed; what is left
/// is empty or ends in `/`.
pub open spec fn spec_strip_component(s: Seq<char>) -> Seq<char>
    decreases s.len(),
{
    if s.len() > 0 && s.last() != '/' {
        spec_strip_component(s.drop_last())
    } else {
        s
    }
}

/// The parent of a path: the path cut at its last `/`. The separator
/// itself is dropped unless it is the leading (root) one. A path without
/// any `/` has no parent.
pub open spec fn spec_parent(s: Seq<char>) -> Option<Seq<char>> {
    let t = spec_strip_component(s);
    if t.len() == 0 {
        None
    } else if t.len() == 1 {
        Some(t)
    } else {
        Some(t.drop_last())
    }
}

/// The parent directory of `p`, exactly as `spec_parent` describes it.
pub fn parent_of(p: &str) -> (r: Option<String>)
    ensures
        (match r {
            Some(t) => spec_parent(p@) == Some(t@),
            None => spec_parent(p@) is None,
        }),
{
    let n: usize = p.unicode_len();
    proof {
        assert(p@.take(n as int) =~= p@);
    }
    let mut i: usize = n;
    while i > 0 && p.get_char(i - 1) != '/'
        invariant
            0 <= i <= n,
            n == p@.len(),
            spec_strip_component(p@) == spec_strip_component(p@.take(i as int)),
        decreases i,
    {
        proof {
            assert(p@.take(i as int).last() == p@[i - 1]);
            assert(p@.take(i as int).drop_last() =~= p@.take(i as int - 1));
        }
        i = i - 1;
    }
    if i == 0 {
        proof {
            assert(p@.take(0) =~= Seq::<char>::empty());
        }
        None
    } else {
        proof {
            assert(p@.take(i as int).last() == p@[i - 1]);
            assert(spec_strip_component(p@) == p@.take(i as int));
        }
        if i == 1 {
            let root: &str = "/";
            proof {
                reveal_strlit("/");
                assert(root@ =~= p@.take(1));
            }
            Some(root.to_owned())
        } else {
            let t = p.substring_char(0, i - 1);
            proof {
                assert(t@ =~= p@.take(i as int).drop_last());
            }
            Some(t.to_owned())
        }
    }
}

/// `r` is reached from `s` by at most `k` steps to the parent directory.
pub open spec fn is_ancestor_within(r: Seq<char>, s: Seq<char>, k: nat) -> bool
    decreases k,
{
    r == s || (k > 0 && match spec_parent(s) {
        Some(p) => is_ancestor_within(r, p, (k - 1) as nat),
        None => false,
    })
}

proof fn lemma_ancestor_widen(r: Seq<char>, s: Seq<char>, k1: nat, k2: nat)
    requires
        is_ancestor_within(r, s, k1),
        k1 <= k2,
    ensures
        is_ancestor_within(r, s, k2),
    decreases k1,
{
    if r != s {
        let p = spec_parent(s)->0;
        lemma_ancestor_widen(r, p, (k1 - 1) as nat, (k2 - 1) as nat);
    }
}

proof fn lemma_ancestor_step(s: Seq<char>, a: Seq<char>, p: Seq<char>, k: nat)
    requires
        is_ancestor_within(a, s, k),
        spec_parent(a) == Some(p),
    ensures
        is_ancestor_within(p, s, k + 1),
    decreases k,
{
    if a == s {
        assert(is_ancestor_within(p, p, k));
    } else {
        let q = spec_parent(s)->0;
        lemma_ancestor_step(q, a, p, (k - 1) as nat);
    }
}

/// What the project-root search may produce for a given working
/// directory: an ancestor within five steps (the one holding the marker
/// file), or the fallback, the working directory's parent (the directory
/// itself when it has none).
pub open spec fn plausible_root(root: Seq<char>, cwd: Seq<char>) -> bool {
    is_ancestor_within(root, cwd, 5) || (match spec_parent(cwd) {
        Some(p) => root == p,
        None => root == cwd,
    })
}

/// One step of the root search, decided by the marker probe's answer: a
/// directory holding the marker is the root and the walk stops there;
/// otherwise the walk climbs to the parent, or ends without a root when
/// there is none.
#[derive(Debug)]
pub enum RootStep {
    Found(String),
    Climb(String),
    NoParent,
}

pub fn root_step(cur: &str, has_marker: bool) -> (r: RootStep)
    ensures
        has_marker ==> (r matches RootStep::Found(q) && q@ == cur@),
        !has_marker ==> (match spec_parent(cur@) {
            Some(p) => r matches RootStep::Climb(q) && q@ == p,
            None => r is NoParent,
        }),
{
    if has_marker {
        RootStep::Found(cur.to_owned())
    } else {
        match parent_of(cur) {
            Some(p) => RootStep::Climb(p),
            None => RootStep::NoParent,
        }
    }
}

/// Walk upward from `cwd` for at most five levels looking for the
/// `pyproject.toml` marker; `root_step` decides, from each probe's
/// answer, whether the walk stops at the current directory or climbs.
/// Without a marker within the bound, fall back to the parent of `cwd`
/// (or `cwd` itself when it has none).
pub fn project_root(cwd: &str) -> (r: String)
    ensures
        plausible_root(r@, cwd@),
{
    let mut cur: String = cwd.to_owned();
    let ghost mut steps: nat = 0nat;
    let mut tries: usize = 0;
    while tries < 5
        invariant
            0 <= tries <= 5,
            steps <= tries,
            is_ancestor_within(cur@, cwd@, steps),
        decreases 5 - tries,
    {
        let probe = cur.clone().concat("/pyproject.toml");
        let has_marker = path_exists(probe.as_str());
        match root_step(cur.as_str(), has_marker) {
            RootStep::Found(root) => {
                proof {
                    lemma_ancestor_widen(root@, cwd@, steps, 5);
                }
                return root;
            },
            RootStep::Climb(p) => {
                proof {
                    lemma_ancestor_step(cwd@, cur@, p@, steps);
                    steps = steps + 1;
                    lemma_ancestor_widen(p@, cwd@, steps, (tries + 1) as nat);
                    steps = (tries + 1) as nat;
                }
                cur = p;
            },
            RootStep::NoParent => {
                break;
            },
        }
        tries = tries + 1;
    }
    match parent_of(cwd) {
        Some(p) => p,
        None => cwd.to_owned(),
    }
}

/// Decide the interpreter from the probes' answers, in the fixed
/// preference order: the project virtual environment's interpreter when
/// it exists, else the caller-named environment's interpreter when that
/// exists, else the bare fallback left to the OS executable search.
pub fn resolve_python(
    venv: String,
    venv_exists: bool,
    env_py: Option<String>,
    env_exists: bool,
) -> (r: String)
    ensures
        venv_exists ==> r == venv,
        !venv_exists && (env_py is Some && env_exists) ==> r == env_py->0,
        !venv_exists && !(env_py is Some && env_exists) ==> r@ == "python3"@,
{
    if venv_exists {
        venv
    } else {
        match env_py {
            Some(p) => {
                if env_exists {
                    p
                } else {
                    "python3".to_owned()
                }
            },
            None => "python3".to_owned(),
        }
    }
}

/// Resolve the interpreter that runs the worker: probe the disk for the
/// project virtual environment's interpreter and for the one of the
/// environment named by the caller, and let `resolve_python` pick in the
/// fixed order.
pub fn find_python(cwd: &str, virtual_env: Option<&str>) -> (r: String)
    ensures
        (exists|root: Seq<char>|
            plausible_root(root, cwd@) && r@ == root + "/.venv/bin/python"@) || ((
        virtual_env matches Some(v) && r@ == v@ + "/bin/python"@)) || r@ == "python3"@,
{
    let root = project_root(cwd);
    let ghost root_view = root@;
    let venv = root.concat("/.venv/bin/python");
    let ghost venv_view = venv@;
    let venv_exists = path_exists(venv.as_str());
    let env_py: Option<String> = match virtual_env {
        Some(v) => Some(v.to_owned().concat("/bin/python")),
        None => None,
    };
    let env_exists = match &env_py {
        Some(p) => path_exists(p.as_str()),
        None => false,
    };
    let r = resolve_python(venv, venv_exists, env_py, env_exists);
    proof {
        if venv_exists {
            assert(plausible_root(root_view, cwd@) && r@ == root_view + "/.venv/bin/python"@);
        }
    }
    r
}

/// A ready-to-start process description: the executable and its argument
/// vector. Starting it is the application's business, not the library's.
pub struct LaunchPlan {
    pub program: String,
    pub args: Vec<String>,
}

/// The worker invocation for a work directory: the resolved interpreter
/// with the fixed module entry point and the `--work-dir` flag.
pub fn launch_plan(cwd: &str, virtual_env: Option<&str>, work_dir: &str) -> (lp: LaunchPlan)
    ensures
        lp.args@.len() == 4,
        lp.args@[0]@ == "-m"@,
        lp.args@[1]@ == "littera.desktop.server"@,
        lp.args@[2]@ == "--work-dir"@,
        lp.args@[3]@ == work_dir@,
        (exists|root: Seq<char>|
            plausible_root(root, cwd@) && lp.program@ == root + "/.venv/bin/python"@) || ((
        virtual_env matches Some(v) && lp.program@ == v@ + "/bin/python"@)) || lp.program@
            == "python3"@,
{
    let program = find_python(cwd, virtual_env);
    let mut args: Vec<String> = Vec::new();
    args.push("-m".to_owned());
    args.push("littera.desktop.server".to_owned());
    args.push("--work-dir".to_owned());
    args.push(work_dir.to_owned());
    LaunchPlan { program, args }
}

/// The one-shot invocation that initializes a new work directory.
pub fn init_plan(cwd: &str, virtual_env: Option<&str>, path: &str) -> (lp: LaunchPlan)
    ensures
        lp.args@.len() == 4,
        lp.args@[0]@ == "-m"@,
        lp.args@[1]@ == "littera"@,
        lp.args@[2]@ == "init"@,
        lp.args@[3]@ == path@,
{
    let program = find_python(cwd, virtual_env);
    let mut args: Vec<String> = Vec::new();
    args.push("-m".to_owned());
    args.push("littera".to_owned());
    args.push("init".to_owned());
    args.push(path.to_owned());
    LaunchPlan { program, args }
}

} // verus!
