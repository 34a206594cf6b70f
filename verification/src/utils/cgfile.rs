//! File presence, the device directory, and cgroup path normalisation.
use crate::utils::text::{chars_of, string_of};
use std::path::PathBuf;
use vstd::prelude::*;

verus! {

#[verifier::external_type_specification]
#[verifier::external_body]
pub struct ExPathBuf(PathBuf);

/// The path that `PathBuf::from` builds from a string.
pub uninterp spec fn path_buf_of(s: Seq<char>) -> PathBuf;

/// `PathBuf::from(&str)`: the result is named `path_buf_of` of the text.
#[verifier::external_body]
fn path_buf_from(s: &str) -> (p: PathBuf)
    ensures
        p == path_buf_of(s@),
{
    PathBuf::from(s)
}

/// What `Path::new(path).strip_prefix(base)` gives, as text: the path
/// relative to `base` when `base`'s components are a prefix of `path`'s.
pub uninterp spec fn path_strip_prefix(path: Seq<char>, base: Seq<char>) -> Option<Seq<char>>;

/// `Path::strip_prefix`, on paths given as text and with the remainder
/// returned as text. The contract only names the result.
#[verifier::external_body]
fn strip_path_prefix(path: &str, base: &str) -> (r: Option<String>)
    ensures
        match r {
            Some(rest) => path_strip_prefix(path@, base@) == Some(rest@),
            None => path_strip_prefix(path@, base@) is None,
        },
{
    match std::path::Path::new(path).strip_prefix(base) {
        Ok(rest) => Some(rest.to_string_lossy().into_owned()),
        Err(_) => None,
    }
}

/// The text of `Path::new(dir).join(file)` on Unix: a `file` that starts
/// with `/` replaces `dir`; otherwise a `/` separates the two unless `dir` is
/// empty or already ends with one.
pub open spec fn path_joined(dir: Seq<char>, file: Seq<char>) -> Seq<char> {
    if file.len() > 0 && file[0] == '/' {
        file
    } else if dir.len() > 0 && dir.last() != '/' {
        dir + seq!['/'] + file
    } else {
        dir + file
    }
}

/// Joins `file` onto `dir` as `Path::join` does on Unix.
pub fn join_path(dir: &str, file: &str) -> (r: String)
    ensures
        r@ == path_joined(dir@, file@),
{
    let d = chars_of(dir);
    let f = chars_of(file);
    if f.len() > 0 && f[0] == '/' {
        return string_of(&f);
    }
    let mut out = d.clone();
    if d.len() > 0 && d[d.len() - 1] != '/' {
        out.push('/');
    }
    let ghost base = out@;
    let mut i: usize = 0;
    while i < f.len()
        invariant
            i <= f@.len(),
            out@ == base + f@.take(i as int),
        decreases f@.len() - i,
    {
        out.push(f[i]);
        proof {
            assert(f@.take(i + 1) =~= f@.take(i as int).push(f@[i as int]));
        }
        i += 1;
    }
    proof {
        assert(f@.take(i as int) =~= f@);
        assert(out@ =~= path_joined(dir@, file@));
    }
    string_of(&out)
}

/// The file system's answer for one path: whether something was there
/// when it was asked.
#[derive(Debug, Clone, PartialEq, Eq)]
pub struct FileCheck {
    pub path: String,
    pub exists: bool,
}

/// `Path::exists` on `path`, reported together with the path it was asked
/// of. Nothing is stated of `exists`: it is the file system's answer at the
/// moment of the call.
#[verifier::external_body]
fn check_path(path: String) -> (c: FileCheck)
    ensures
        c.path@ == path@,
{
    let exists = std::path::Path::new(&path).exists();
    FileCheck { path, exists }
}

/// Asks, for each of `files` in order, whether it exists in `dir`, each
/// file joined onto `dir` as `Path::join` does.
pub fn check_files(dir: &str, files: &[&str]) -> (r: Vec<FileCheck>)
    ensures
        r@.len() == files@.len(),
        forall|i: int|
            0 <= i < files@.len() ==> (#[trigger] r@[i]).path@ == path_joined(dir@, files@[i]@),
{
    let mut out: Vec<FileCheck> = Vec::new();
    let mut i: usize = 0;
    while i < files.len()
        invariant
            i <= files@.len(),
            out@.len() == i,
            forall|j: int|
                0 <= j < i ==> (#[trigger] out@[j]).path@ == path_joined(dir@, files@[j]@),
        decreases files@.len() - i,
    {
        out.push(check_path(join_path(dir, files[i])));
        i += 1;
    }
    out
}

/// The answers of a list of checks, in order.
pub open spec fn answers(checks: Seq<FileCheck>) -> Seq<bool> {
    checks.map_values(|c: FileCheck| c.exists)
}

/// The answers of `checks`, in order.
pub fn answers_of(checks: &Vec<FileCheck>) -> (r: Vec<bool>)
    ensures
        r@ == answers(checks@),
{
    let mut out: Vec<bool> = Vec::new();
    let mut i: usize = 0;
    while i < checks.len()
        invariant
            i <= checks@.len(),
            out@ == answers(checks@.take(i as int)),
        decreases checks@.len() - i,
    {
        out.push(checks[i].exists);
        proof {
            assert(checks@.take(i + 1) =~= checks@.take(i as int).push(checks@[i as int]));
        }
        i += 1;
    }
    proof {
        assert(checks@.take(i as int) =~= checks@);
    }
    out
}

/// The error that names a missing file.
pub open spec fn missing_message(file: Seq<char>) -> Seq<char> {
    file + " not present"@
}

/// The verdict on one required file: `Ok` when it is present, else the
/// error that names it.
pub fn check_present(file: &str, present: bool) -> (r: Result<(), String>)
    ensures
        present ==> r is Ok,
        !present ==> (r matches Err(e) && e@ == missing_message(file@)),
{
    if present {
        Ok(())
    } else {
        let mut e = String::from_str(file);
        e.append(" not present");
        Err(e)
    }
}

/// Whether `present` marks every file present.
pub open spec fn all_present(present: Seq<bool>) -> bool {
    forall|i: int| 0 <= i < present.len() ==> #[trigger] present[i]
}

/// Whether `k` is the first position that `present` marks absent.
pub open spec fn first_absent_at(present: Seq<bool>, k: int) -> bool {
    &&& 0 <= k < present.len()
    &&& !present[k]
    &&& forall|j: int| 0 <= j < k ==> #[trigger] present[j]
}

/// The verdict on a list of required files, given for each whether it is
/// present: `Ok` when all are, else the error that names the first absent
/// one, in order.
pub fn first_missing(files: &[&str], present: &[bool]) -> (r: Result<(), String>)
    requires
        present@.len() == files@.len(),
    ensures
        r is Ok <==> all_present(present@),
        r matches Err(e) ==> exists|k: int|
            first_absent_at(present@, k) && e@ == missing_message(#[trigger] files@[k]@),
{
    let mut i: usize = 0;
    while i < files.len()
        invariant
            i <= files@.len(),
            present@.len() == files@.len(),
            forall|j: int| 0 <= j < i ==> #[trigger] present@[j],
        decreases files@.len() - i,
    {
        let verdict = check_present(files[i], present[i]);
        if verdict.is_err() {
            proof {
                assert(first_absent_at(present@, i as int));
                assert(!all_present(present@));
            }
            return verdict;
        }
        i += 1;
    }
    Ok(())
}

/// Checks that every file in `files` exists in `dir`, and names the first
/// one, in order, that does not; the checks it made are handed back beside
/// the verdict. Each check asks of `files[i]` joined onto `dir`, and the
/// verdict is the one `first_missing` gives for the answers received: `Ok`
/// exactly when every file was there, else the error naming the first that
/// was not.
pub fn require_checked(dir: &str, files: &[&str]) -> (r: (Vec<FileCheck>, Result<(), String>))
    ensures
        r.0@.len() == files@.len(),
        forall|i: int|
            0 <= i < files@.len() ==> (#[trigger] r.0@[i]).path@ == path_joined(dir@, files@[i]@),
        r.1 is Ok <==> all_present(answers(r.0@)),
        r.1 matches Err(e) ==> exists|k: int|
            first_absent_at(answers(r.0@), k) && e@ == missing_message(#[trigger] files@[k]@),
{
    let checks = check_files(dir, files);
    let present = answers_of(&checks);
    let verdict = first_missing(files, present.as_slice());
    (checks, verdict)
}

/// Checks that every file in `files` exists in `dir`, and names the first
/// one, in order, that does not. The verdict is the one `first_missing`
/// gives for the file system's answers about each file joined onto `dir`:
/// `Ok` exactly when every such path was there, else the error naming the
/// first that was not. (`require_checked` hands those answers back too.)
pub fn require(dir: &str, files: &[&str]) -> (r: Result<(), String>)
    ensures
        files@.len() == 0 ==> r is Ok,
        r matches Err(e) ==> exists|i: int|
            0 <= i < files@.len() && e@ == missing_message(#[trigger] files@[i]@),
        exists|checks: Seq<FileCheck>|
            {
                &&& checks.len() == files@.len()
                &&& forall|i: int|
                    0 <= i < files@.len() ==> (#[trigger] checks[i]).path@ == path_joined(
                        dir@,
                        files@[i]@,
                    )
                &&& (r is Ok <==> all_present(answers(checks)))
                &&& (r matches Err(e) ==> exists|k: int|
                    first_absent_at(answers(checks), k) && e@ == missing_message(
                        #[trigger] files@[k]@,
                    ))
            },
{
    let (checks, verdict) = require_checked(dir, files);
    proof {
        assert(checks@.len() == files@.len());
    }
    verdict
}

/// The directory under which the kernel links block devices by
/// `major:minor`.
pub fn sys_dev_block() -> (p: PathBuf)
    ensures
        p == path_buf_of("/sys/dev/block"@),
{
    path_buf_from("/sys/dev/block")
}

/// `s` without its leading `/` characters.
pub open spec fn trim_start_slashes(s: Seq<char>) -> Seq<char>
    decreases s.len(),
{
    if s.len() > 0 && s[0] == '/' {
        trim_start_slashes(s.drop_first())
    } else {
        s
    }
}

/// `s` without its trailing `/` characters.
pub open spec fn trim_end_slashes(s: Seq<char>) -> Seq<char>
    decreases s.len(),
{
    if s.len() > 0 && s.last() == '/' {
        trim_end_slashes(s.drop_last())
    } else {
        s
    }
}

/// `s.trim_matches('/')`.
pub open spec fn trim_slashes(s: Seq<char>) -> Seq<char> {
    trim_end_slashes(trim_start_slashes(s))
}

/// The cgroup path relative to the hierarchy root: `path` with `root`
/// stripped when it lies under it, then without leading and trailing `/`.
pub open spec fn normalized(path: Seq<char>, root: Seq<char>) -> Seq<char> {
    match path_strip_prefix(path, root) {
        Some(rest) => trim_slashes(rest),
        None => trim_slashes(path),
    }
}

proof fn lemma_trim_start_at(s: Seq<char>, a: int)
    requires
        0 <= a <= s.len(),
        forall|j: int| 0 <= j < a ==> s[j] == '/',
        a < s.len() ==> s[a] != '/',
    ensures
        trim_start_slashes(s) == s.skip(a),
    decreases a,
{
    if a > 0 {
        lemma_trim_start_at(s.drop_first(), a - 1);
        assert(s.drop_first().skip(a - 1) =~= s.skip(a));
    } else {
        assert(s.skip(0) =~= s);
    }
}

proof fn lemma_trim_end_at(s: Seq<char>, b: int)
    requires
        0 <= b <= s.len(),
        forall|j: int| b <= j < s.len() ==> s[j] == '/',
        b > 0 ==> s[b - 1] != '/',
    ensures
        trim_end_slashes(s) == s.take(b),
    decreases s.len() - b,
{
    if b < s.len() {
        lemma_trim_end_at(s.drop_last(), b);
        assert(s.drop_last().take(b) =~= s.take(b));
    } else {
        assert(s.take(b) =~= s);
    }
}

/// `s.trim_matches('/')`.
fn trim_slash_chars(s: &str) -> (r: String)
    ensures
        r@ == trim_slashes(s@),
        r@.len() > 0 ==> r@[0] != '/' && r@.last() != '/',
{
    let v = chars_of(s);
    let n = v.len();
    let mut a: usize = 0;
    while a < n && v[a] == '/'
        invariant
            a <= n,
            n == v@.len(),
            forall|j: int| 0 <= j < a ==> v@[j] == '/',
        decreases n - a,
    {
        a += 1;
    }
    let mut b: usize = n;
    while b > a && v[b - 1] == '/'
        invariant
            a <= b <= n,
            n == v@.len(),
            forall|j: int| b <= j < n ==> v@[j] == '/',
        decreases b,
    {
        b -= 1;
    }
    let mut out: Vec<char> = Vec::new();
    let mut i: usize = a;
    while i < b
        invariant
            a <= i <= b <= n,
            n == v@.len(),
            out@ == v@.subrange(a as int, i as int),
        decreases b - i,
    {
        out.push(v[i]);
        proof {
            assert(out@ =~= v@.subrange(a as int, i + 1));
        }
        i += 1;
    }
    proof {
        lemma_trim_start_at(v@, a as int);
        let t = v@.skip(a as int);
        assert forall|j: int| b - a <= j < t.len() implies t[j] == '/' by {
            assert(t[j] == v@[a + j]);
        }
        if b > a {
            assert(t[b - a - 1] == v@[b - 1]);
        }
        lemma_trim_end_at(t, b - a);
        assert(t.take(b - a) =~= v@.subrange(a as int, b as int));
        if b > a {
            assert(v@[a as int] != '/');
        }
    }
    string_of(&out)
}

/// Normalises a cgroup path given absolute or relative to the hierarchy
/// root: the root is stripped when `path` lies under it (component-wise, so
/// a sibling sharing a textual prefix is left alone), then leading and
/// trailing `/` are trimmed.
pub fn normalize_path(path: &str, root: &str) -> (r: String)
    ensures
        r@ == normalized(path@, root@),
        r@.len() > 0 ==> r@[0] != '/' && r@.last() != '/',
{
    match strip_path_prefix(path, root) {
        Some(rest) => trim_slash_chars(rest.as_str()),
        None => trim_slash_chars(path),
    }
}

} // verus!
