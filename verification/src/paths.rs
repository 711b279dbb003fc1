//! Path-level decisions for batch processing: which entries count as
//! markdown files, and which directories are excluded from discovery.
//! The filesystem walking itself lives with the caller; everything
//! here is a pure function of path strings.

use vstd::prelude::*;
use vstd::string::StrSliceExecFns;
use vstd::string::StringExecFns;
use crate::api::FileOptions;
use crate::options::{OrderedListMode, WrapMode};
use crate::text::{chars_vec, lower_char, lower_char_exec, lower_seq, pieces_of, split_on_char, vecs_view};

verus! {

/// The character sequences of a vector of strings.
pub open spec fn strs_view(v: Seq<String>) -> Seq<Seq<char>> {
    v.map_values(|s: String| s@)
}

/// The directory names excluded from discovery unless disabled.
pub open spec fn default_excludes_spec() -> Seq<Seq<char>> {
    seq![
        "node_modules"@,
        "target"@,
        ".git"@,
        "vendor"@,
        "dist"@,
        "build"@,
    ]
}

/// The effective exclude list: the defaults unless disabled, then the
/// extra names, in order.
pub open spec fn excludes_spec(no_default: bool, extra: Seq<Seq<char>>) -> Seq<Seq<char>> {
    (if no_default {
        Seq::<Seq<char>>::empty()
    } else {
        default_excludes_spec()
    }) + extra
}

/// Builds the default exclude list.
pub fn default_excludes() -> (r: Vec<String>)
    ensures
        strs_view(r@) == default_excludes_spec(),
{
    let mut v: Vec<String> = Vec::new();
    v.push(String::from_str("node_modules"));
    v.push(String::from_str("target"));
    v.push(String::from_str(".git"));
    v.push(String::from_str("vendor"));
    v.push(String::from_str("dist"));
    v.push(String::from_str("build"));
    proof {
        assert(strs_view(v@) =~= default_excludes_spec());
    }
    v
}

/// Exact comparison of two character vectors.
fn eq_chars(a: &Vec<char>, b: &Vec<char>) -> (r: bool)
    ensures
        r == (a@ == b@),
{
    if a.len() != b.len() {
        return false;
    }
    let mut i: usize = 0;
    while i < a.len()
        invariant
            i <= a@.len(),
            a@.len() == b@.len(),
            forall|j: int| 0 <= j < i ==> a@[j] == b@[j],
        decreases a@.len() - i,
    {
        if a[i] != b[i] {
            return false;
        }
        i += 1;
    }
    proof {
        assert(a@ =~= b@);
    }
    true
}

/// Some path component equals one of the excluded names.
pub open spec fn should_exclude_spec(path: Seq<char>, excludes: Seq<Seq<char>>) -> bool {
    exists|i: int|
        0 <= i < pieces_of(path, '/').len() && excludes.contains(
            #[trigger] pieces_of(path, '/')[i],
        )
}

/// Whether a path is excluded: true when any of its `/`-separated
/// components is one of the excluded directory names.
pub fn should_exclude(path: &str, excludes: &Vec<String>) -> (r: bool)
    ensures
        r == should_exclude_spec(path@, strs_view(excludes@)),
{
    let cs = chars_vec(path);
    let pieces = split_on_char(&cs, '/');
    let ghost pv = pieces_of(path@, '/');
    let ghost ev = strs_view(excludes@);
    let mut i: usize = 0;
    while i < pieces.len()
        invariant
            i <= pieces@.len(),
            pv == vecs_view(pieces@),
            pv == pieces_of(path@, '/'),
            pv.len() == pieces@.len(),
            ev == strs_view(excludes@),
            ev.len() == excludes@.len(),
            forall|k: int| 0 <= k < i ==> !ev.contains(#[trigger] pv[k]),
        decreases pieces@.len() - i,
    {
        let piece = &pieces[i];
        proof {
            assert(pv[i as int] == piece@);
        }
        let mut j: usize = 0;
        while j < excludes.len()
            invariant
                j <= excludes@.len(),
                i < pieces@.len(),
                pv == vecs_view(pieces@),
                pv == pieces_of(path@, '/'),
                pv.len() == pieces@.len(),
                piece == pieces@[i as int],
                ev == strs_view(excludes@),
                ev.len() == excludes@.len(),
                forall|k: int| 0 <= k < j ==> ev[k] != pv[i as int],
            decreases excludes@.len() - j,
        {
            let ec = chars_vec(excludes[j].as_str());
            proof {
                assert(ev[j as int] == excludes@[j as int]@);
            }
            if eq_chars(piece, &ec) {
                proof {
                    assert(ev.contains(pv[i as int]));
                    assert(should_exclude_spec(path@, ev)) by {
                        assert(ev.contains(pieces_of(path@, '/')[i as int]));
                    }
                }
                return true;
            }
            j += 1;
        }
        proof {
            assert(!ev.contains(pv[i as int])) by {
                if ev.contains(pv[i as int]) {
                    let w = choose|w: int| 0 <= w < ev.len() && ev[w] == pv[i as int];
                    assert(ev[w] != pv[i as int]);
                }
            }
        }
        i += 1;
    }
    proof {
        assert(!should_exclude_spec(path@, ev)) by {
            if should_exclude_spec(path@, ev) {
                let w = choose|w: int| 0 <= w < pv.len() && ev.contains(#[trigger] pv[w]);
                assert(!ev.contains(pv[w]));
            }
        }
    }
    false
}

/// The index of the last `.` in a name, or -1 when it has none.
pub open spec fn last_dot(s: Seq<char>) -> int
    decreases s.len(),
{
    if s.len() == 0 {
        -1
    } else if s.last() == '.' {
        s.len() - 1
    } else {
        last_dot(s.drop_last())
    }
}

/// The path names a markdown file: its file name has an extension —
/// a `.` after the first character — and that extension folds to `md`.
pub open spec fn is_markdown_path(path: Seq<char>) -> bool {
    let ps = pieces_of(path, '/');
    ps.len() > 0 && {
        let name = ps.last();
        let d = last_dot(name);
        d > 0 && lower_seq(name.subrange(d + 1, name.len() as int)) == "md"@
    }
}

/// Whether a path names a markdown file (`.md`, any ASCII case).
pub fn is_markdown_file(path: &str) -> (r: bool)
    ensures
        r == is_markdown_path(path@),
{
    let cs = chars_vec(path);
    let pieces = split_on_char(&cs, '/');
    if pieces.len() == 0 {
        return false;
    }
    let name = &pieces[pieces.len() - 1];
    let ghost nv = name@;
    proof {
        assert(vecs_view(pieces@)[pieces@.len() - 1] == nv);
        assert(pieces_of(path@, '/').last() == nv);
        assert(nv.take(nv.len() as int) =~= nv);
    }
    let mut k: usize = name.len();
    while k > 0 && name[k - 1] != '.'
        invariant
            k <= nv.len(),
            nv == name@,
            last_dot(nv) == last_dot(nv.take(k as int)),
        decreases k,
    {
        proof {
            assert(nv.take(k as int).last() == nv[k - 1]);
            assert(nv.take(k as int).drop_last() =~= nv.take(k - 1));
        }
        k -= 1;
    }
    if k < 2 {
        proof {
            if k == 0 {
                assert(nv.take(0) =~= Seq::<char>::empty());
                assert(last_dot(nv) == -1);
            } else {
                assert(nv.take(k as int).last() == nv[k - 1]);
                assert(last_dot(nv) == k - 1);
            }
        }
        return false;
    }
    proof {
        assert(nv.take(k as int).last() == nv[k - 1]);
        assert(last_dot(nv) == k - 1);
    }
    let d = k - 1;
    if name.len() - d != 3 {
        proof {
            assert(lower_seq(nv.subrange(d + 1, nv.len() as int)).len() == nv.len() - d - 1);
            reveal_strlit("md");
        }
        return false;
    }
    let ok = lower_char_exec(name[d + 1]) == 'm' && lower_char_exec(name[d + 2]) == 'd';
    proof {
        reveal_strlit("md");
        assert("md"@ =~= seq!['m', 'd']);
        let ext = lower_seq(nv.subrange(d + 1, nv.len() as int));
        assert(ext.len() == 2);
        assert(ext[0] == lower_char(nv[d + 1]));
        assert(ext[1] == lower_char(nv[d + 2]));
        if ok {
            assert(ext =~= "md"@);
        } else {
            assert(ext != "md"@);
        }
    }
    ok
}

/// One resolved input for the formatter.
#[derive(Debug)]
pub enum InputSource {
    /// A file, by path.
    File(String),
    /// The standard input stream.
    Stdin,
}

/// The command-line configuration, as plain values.
#[derive(Debug)]
pub struct Args {
    /// Files, directories or glob patterns to format.
    pub paths: Vec<String>,
    /// Write formatted output back in place.
    pub write: bool,
    /// Only check whether files are formatted.
    pub check: bool,
    /// Read the document from standard input.
    pub stdin: bool,
    /// Target line width.
    pub width: usize,
    /// The wrap policy.
    pub wrap: WrapMode,
    /// The ordered-list numbering policy.
    pub ordered_list: OrderedListMode,
    /// Additional directory names to exclude.
    pub excludes: Vec<String>,
    /// Drop the built-in exclude list.
    pub no_default_excludes: bool,
}

impl Args {
    /// The effective exclude list for this invocation.
    pub fn get_excludes(&self) -> (r: Vec<String>)
        ensures
            strs_view(r@) == excludes_spec(self.no_default_excludes, strs_view(self.excludes@)),
    {
        let mut r: Vec<String> = if self.no_default_excludes {
            Vec::new()
        } else {
            default_excludes()
        };
        let ghost base = strs_view(r@);
        proof {
            assert(base == (if self.no_default_excludes {
                Seq::<Seq<char>>::empty()
            } else {
                default_excludes_spec()
            }));
        }
        let mut i: usize = 0;
        while i < self.excludes.len()
            invariant
                i <= self.excludes@.len(),
                strs_view(r@) == base + strs_view(self.excludes@.take(i as int)),
            decreases self.excludes@.len() - i,
        {
            let ghost pre = strs_view(r@);
            r.push(self.excludes[i].clone());
            i += 1;
            proof {
                assert(strs_view(r@) =~= pre.push(self.excludes@[i - 1]@));
                assert(strs_view(self.excludes@.take(i as int)) =~= strs_view(
                    self.excludes@.take(i - 1),
                ).push(self.excludes@[i - 1]@));
                assert(pre.push(self.excludes@[i - 1]@) =~= base + strs_view(
                    self.excludes@.take(i as int),
                ));
            }
        }
        proof {
            assert(self.excludes@.take(self.excludes@.len() as int) =~= self.excludes@);
        }
        r
    }

    /// Whether a path is excluded under this invocation's rules.
    pub fn should_exclude(&self, path: &str, excludes: &Vec<String>) -> (r: bool)
        ensures
            r == should_exclude_spec(path@, strs_view(excludes@)),
    {
        should_exclude(path, excludes)
    }

    /// Whether a path names a markdown file.
    pub fn is_markdown_file(path: &str) -> (r: bool)
        ensures
            r == is_markdown_path(path@),
    {
        is_markdown_file(path)
    }
}

/// The effective exclude list for file options.
pub fn get_excludes(options: &Option<FileOptions>) -> (r: Vec<String>)
    ensures
        strs_view(r@) == excludes_spec(
            (match options {
                Some(o) => o.no_default_excludes == Some(true),
                None => false,
            }),
            (match options {
                Some(o) => match o.exclude {
                    Some(extra) => strs_view(extra@),
                    None => Seq::<Seq<char>>::empty(),
                },
                None => Seq::<Seq<char>>::empty(),
            }),
        ),
{
    let no_default: bool = match options {
        Some(o) => match o.no_default_excludes {
            Some(b) => b,
            None => false,
        },
        None => false,
    };
    let mut r: Vec<String> = if no_default {
        Vec::new()
    } else {
        default_excludes()
    };
    let ghost base = strs_view(r@);
    match options {
        Some(o) => match &o.exclude {
            Some(extra) => {
                let mut i: usize = 0;
                while i < extra.len()
                    invariant
                        i <= extra@.len(),
                        strs_view(r@) == base + strs_view(extra@.take(i as int)),
                    decreases extra@.len() - i,
                {
                    let ghost pre = strs_view(r@);
                    r.push(extra[i].clone());
                    i += 1;
                    proof {
                        assert(strs_view(r@) =~= pre.push(extra@[i - 1]@));
                        assert(strs_view(extra@.take(i as int)) =~= strs_view(
                            extra@.take(i - 1),
                        ).push(extra@[i - 1]@));
                        assert(pre.push(extra@[i - 1]@) =~= base + strs_view(
                            extra@.take(i as int),
                        ));
                    }
                }
                proof {
                    assert(extra@.take(extra@.len() as int) =~= extra@);
                }
            },
            None => {
                proof {
                    assert(strs_view(r@) =~= base + Seq::<Seq<char>>::empty());
                }
            },
        },
        None => {
            proof {
                assert(strs_view(r@) =~= base + Seq::<Seq<char>>::empty());
            }
        },
    }
    r
}

} // verus!
