use vstd::prelude::*;
use vstd::string::StrSliceExecFns;
use vstd::string::StringExecFns;

verus! {

/// One remembered work directory.
#[derive(Debug)]
pub struct RecentWork {
    pub path: String,
    pub name: String,
    pub last_opened: u64,
}

/// The persisted per-user state: the recently opened works, newest first
/// and capped at ten, and the optional workspace directory.
#[derive(Debug)]
pub struct DesktopConfig {
    pub recent: Vec<RecentWork>,
    pub workspace: Option<String>,
}

impl Default for DesktopConfig {
    /// An empty configuration: no recents, no workspace.
    fn default() -> (d: DesktopConfig)
        ensures
            d.recent@ == Seq::<RecentWork>::empty(),
            d.workspace is None,
    {
        DesktopConfig { recent: Vec::new(), workspace: None }
    }
}

/// Relies on std::time::SystemTime::now: the number of whole seconds
/// since the Unix epoch, or 0 when the clock reads before it. The value
/// depends on the machine's clock, so nothing is promised of it.
#[verifier::external_body]
pub fn now_epoch() -> u64 {
    std::time::SystemTime::now()
        .duration_since(std::time::UNIX_EPOCH)
        .map(|d| d.as_secs())
        .unwrap_or(0)
}

/// Relies on dirs::home_dir: the user's home directory, if the platform
/// reports one, converted lossily to a string. The value depends on the
/// environment, so nothing is promised of it.
#[verifier::external_body]
fn home_dir_string() -> Option<String> {
    dirs::home_dir().map(|p| p.to_string_lossy().to_string())
}

/// The configuration directory under a given home directory: `.littera`
/// under it, or under `.` when no home is known.
pub fn config_dir_from(home: Option<&str>) -> (r: String)
    ensures
        (match home {
            Some(h) => r@ == h@ + "/.littera"@,
            None => r@ == "."@ + "/.littera"@,
        }),
{
    let base = match home {
        Some(h) => h.to_owned(),
        None => ".".to_owned(),
    };
    base.concat("/.littera")
}

/// The per-user configuration directory, resolved against the home
/// directory the platform reports.
pub fn config_dir() -> (r: String)
    ensures
        exists|base: Seq<char>| r@ == base + "/.littera"@,
{
    let home = home_dir_string();
    let r = config_dir_from(match &home {
        Some(h) => Some(h.as_str()),
        None => None,
    });
    proof {
        match home {
            Some(h) => {
                assert(r@ == h@ + "/.littera"@);
            },
            None => {
                assert(r@ == "."@ + "/.littera"@);
            },
        }
    }
    r
}

/// The configuration file: `desktop.json` inside the configuration
/// directory.
pub fn config_path() -> (r: String)
    ensures
        exists|base: Seq<char>| r@ == base + "/.littera/desktop.json"@,
{
    let d = config_dir();
    let ghost dv = d@;
    let r = d.concat("/desktop.json");
    proof {
        let base = choose|base: Seq<char>| dv == base + "/.littera"@;
        reveal_strlit("/.littera");
        reveal_strlit("/desktop.json");
        reveal_strlit("/.littera/desktop.json");
        assert(("/.littera"@ + "/desktop.json"@) =~= "/.littera/desktop.json"@);
        assert(r@ =~= base + "/.littera/desktop.json"@);
    }
    r
}

/// The characters after the last `/` of a path; empty when the path is
/// empty or ends in `/`.
pub open spec fn spec_base_name(s: Seq<char>) -> Seq<char>
    decreases s.len(),
{
    if s.len() == 0 {
        s
    } else if s.last() == '/' {
        Seq::empty()
    } else {
        spec_base_name(s.drop_last()).push(s.last())
    }
}

/// The display name of a work directory: its base name, or the whole
/// path when the base name is empty.
pub open spec fn spec_display_name(s: Seq<char>) -> Seq<char> {
    if spec_base_name(s).len() > 0 {
        spec_base_name(s)
    } else {
        s
    }
}

/// The base name of a path, exactly as `spec_base_name` describes it.
pub fn base_name(p: &str) -> (r: String)
    ensures
        r@ == spec_base_name(p@),
{
    let n: usize = p.unicode_len();
    proof {
        assert(p@.take(n as int) =~= p@);
        assert(p@.skip(n as int) =~= Seq::<char>::empty());
        assert(spec_base_name(p@) + p@.skip(n as int) =~= spec_base_name(p@));
    }
    let mut i: usize = n;
    while i > 0 && p.get_char(i - 1) != '/'
        invariant
            0 <= i <= n,
            n == p@.len(),
            spec_base_name(p@) == spec_base_name(p@.take(i as int)) + p@.skip(i as int),
        decreases i,
    {
        proof {
            assert(p@.take(i as int).last() == p@[i - 1]);
            assert(p@.take(i as int).drop_last() =~= p@.take(i as int - 1));
            assert(p@.skip(i as int - 1) =~= seq![p@[i - 1]] + p@.skip(i as int));
            assert(spec_base_name(p@.take(i as int - 1)).push(p@[i - 1]) + p@.skip(i as int)
                =~= spec_base_name(p@.take(i as int - 1)) + p@.skip(i as int - 1));
        }
        i = i - 1;
    }
    proof {
        if i == 0 {
            assert(p@.take(0) =~= Seq::<char>::empty());
            assert(spec_base_name(p@.take(0)) + p@.skip(0) =~= p@.skip(0));
        } else {
            assert(p@.take(i as int).last() == p@[i - 1]);
            assert(spec_base_name(p@.take(i as int)) + p@.skip(i as int) =~= p@.skip(i as int));
        }
    }
    let r = p.substring_char(i, n);
    proof {
        assert(r@ =~= p@.skip(i as int));
    }
    r.to_owned()
}

/// The display name of a path, exactly as `spec_display_name` says.
pub fn display_name(p: &str) -> (r: String)
    ensures
        r@ == spec_display_name(p@),
{
    let b = base_name(p);
    if b.as_str().is_empty() {
        p.to_owned()
    } else {
        b
    }
}

/// Remember `path` as the most recently opened work: any existing entry
/// with the same path is dropped, the new entry (named by the display
/// name, stamped with the current clock) goes in front, and the list is
/// capped at ten entries. The workspace is untouched.
pub fn record_recent(config: &mut DesktopConfig, path: &str)
    ensures
        ({
            let kept = old(config).recent@.filter(|r: RecentWork| r.path@ != path@);
            let cap: nat = if kept.len() + 1 <= 10 {
                kept.len() + 1
            } else {
                10nat
            };
            &&& final (config).recent@.len() == cap
            &&& final (config).recent@[0].path@ == path@
            &&& final (config).recent@[0].name@ == spec_display_name(path@)
            &&& final (config).recent@.drop_first() == kept.take(cap - 1)
            &&& final (config).workspace == old(config).workspace
        }),
{
    let ghost orig = config.recent@;
    let ghost pred = |r: RecentWork| r.path@ != path@;
    let needle: String = path.to_owned();
    let mut i: usize = 0;
    let ghost mut j: int = 0;
    proof {
        reveal(Seq::filter);
        assert(orig.take(0) =~= Seq::<RecentWork>::empty());
        assert(orig.skip(0) =~= orig);
        assert(orig.take(0).filter(pred) + orig.skip(0) =~= orig);
    }
    while i < config.recent.len()
        invariant
            0 <= j <= orig.len(),
            i as int == orig.take(j).filter(pred).len(),
            config.recent@ == orig.take(j).filter(pred) + orig.skip(j),
            config.workspace == old(config).workspace,
            pred == (|r: RecentWork| r.path@ != path@),
            needle@ == path@,
        decreases orig.len() - j,
    {
        proof {
            reveal(Seq::filter);
            assert(config.recent@[i as int] == orig.skip(j)[0]);
            assert(orig.skip(j)[0] == orig[j]);
            assert(orig.take(j + 1).drop_last() =~= orig.take(j));
            assert(orig.take(j + 1).last() == orig[j]);
            assert(orig.skip(j) =~= seq![orig[j]] + orig.skip(j + 1));
        }
        if config.recent[i].path.eq(&needle) {
            let _ = config.recent.remove(i);
            proof {
                reveal(Seq::filter);
                assert(!pred(orig[j]));
                assert(orig.take(j + 1).filter(pred) == orig.take(j).filter(pred));
                assert(config.recent@ =~= orig.take(j + 1).filter(pred) + orig.skip(j + 1));
            }
        } else {
            proof {
                reveal(Seq::filter);
                assert(pred(orig[j]));
                assert(orig.take(j + 1).filter(pred) == orig.take(j).filter(pred).push(orig[j]));
                assert(config.recent@ =~= orig.take(j + 1).filter(pred) + orig.skip(j + 1));
            }
            i = i + 1;
        }
        proof {
            j = j + 1;
        }
    }
    proof {
        assert(orig.take(j) =~= orig);
        assert(config.recent@ =~= orig.filter(pred));
    }
    let name = display_name(path);
    let entry = RecentWork { path: needle, name, last_opened: now_epoch() };
    config.recent.insert(0, entry);
    config.recent.truncate(10);
    proof {
        let kept = orig.filter(pred);
        let cap: nat = if kept.len() + 1 <= 10 {
            kept.len() + 1
        } else {
            10nat
        };
        assert(config.recent@.len() == cap);
        assert(config.recent@.drop_first() =~= kept.take(cap - 1));
    }
}

} // verus!
