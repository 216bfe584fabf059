//! The lockfile codec: a durable, human-diffable snapshot of the declared
//! repository set.
//!
//! Each entry is six text lines: a `repo` marker, then the name, the path
//! relative to the workspace, the origin address, the upstream address (an
//! empty line when none is declared) and the branch (likewise). Encoding is
//! a pure function of the entries, so writing the same set twice produces
//! byte-identical text, and [`lemma_lockfile_round_trip`] shows that
//! decoding what was encoded gives back exactly the entries that went in.
//!
//! The caller is expected to hand `encode` a sorted, deduplicated list (the
//! lock pipeline's output); the codec itself neither sorts nor merges.
//! Reading and writing the file, and the write-to-temporary-then-rename
//! step that keeps a crash from corrupting the previous lockfile, happen
//! outside the library.

use vstd::prelude::*;
use vstd::string::StrSliceExecFns;
use vstd::string::StringExecFns;

use crate::errors::ErrorKind;
use crate::errors::WorkspaceError;
use crate::order::str_eq;
use crate::repository::RepoView;
use crate::repository::Repository;

verus! {

/// The marker line that opens every entry.
pub open spec fn header() -> Seq<char> {
    seq!['r', 'e', 'p', 'o']
}

/// The line terminator.
pub open spec fn nl() -> Seq<char> {
    seq!['\n']
}

/// An optional field's text: the value, or nothing.
pub open spec fn opt_field(o: Option<Seq<char>>) -> Seq<char> {
    match o {
        Some(s) => s,
        None => Seq::empty(),
    }
}

/// No line terminator inside the text.
pub open spec fn no_newline(s: Seq<char>) -> bool {
    forall|i: int| 0 <= i < s.len() ==> s[i] != '\n'
}

/// A repository the lockfile can carry faithfully: fields are single lines,
/// and a declared upstream or branch is non-empty, so that an empty line
/// means exactly "not declared".
pub open spec fn lockfile_safe(r: RepoView) -> bool {
    &&& no_newline(r.name)
    &&& no_newline(r.path)
    &&& no_newline(r.origin)
    &&& match r.upstream {
        Some(u) => no_newline(u) && u.len() > 0,
        None => true,
    }
    &&& match r.branch {
        Some(b) => no_newline(b) && b.len() > 0,
        None => true,
    }
}

fn has_no_newline(s: &str) -> (r: bool)
    ensures
        r == no_newline(s@),
{
    let len = s.unicode_len();
    let mut i: usize = 0;
    while i < len
        invariant
            i <= len,
            len == s@.len(),
            forall|j: int| 0 <= j < i ==> s@[j] != '\n',
        decreases len - i,
    {
        if s.get_char(i) == '\n' {
            return false;
        }
        i = i + 1;
    }
    true
}

/// Can the lockfile carry this repository faithfully? Exactly when it can,
/// decoding a written lockfile gives the repository back unchanged.
pub fn check_lockfile_safe(r: &Repository) -> (b: bool)
    ensures
        b == lockfile_safe(r@),
{
    if !has_no_newline(r.name.as_str()) {
        return false;
    }
    if !has_no_newline(r.full_path.as_str()) {
        return false;
    }
    if !has_no_newline(r.origin_url.as_str()) {
        return false;
    }
    match &r.upstream_url {
        Some(u) => {
            if !has_no_newline(u.as_str()) || u.as_str().unicode_len() == 0 {
                return false;
            }
        },
        None => (),
    }
    match &r.branch {
        Some(b) => {
            if !has_no_newline(b.as_str()) || b.as_str().unicode_len() == 0 {
                return false;
            }
        },
        None => (),
    }
    true
}

/// One line of text followed by its terminator and everything after it.
pub open spec fn line_text(a: Seq<char>, rest: Seq<char>) -> Seq<char> {
    a + nl() + rest
}

/// An entry's six lines followed by `tail`.
pub open spec fn encode_repo_then(r: RepoView, tail: Seq<char>) -> Seq<char> {
    line_text(
        header(),
        line_text(
            r.name,
            line_text(
                r.path,
                line_text(
                    r.origin,
                    line_text(opt_field(r.upstream), line_text(opt_field(r.branch), tail)),
                ),
            ),
        ),
    )
}

/// One entry's six lines.
pub open spec fn encode_repo(r: RepoView) -> Seq<char> {
    encode_repo_then(r, Seq::empty())
}

/// The whole lockfile text for a sequence of entries.
pub open spec fn encode(rs: Seq<RepoView>) -> Seq<char>
    decreases rs.len(),
{
    if rs.len() == 0 {
        Seq::empty()
    } else {
        encode_repo(rs[0]) + encode(rs.drop_first())
    }
}

/// Position of the first line terminator, or the length when there is none.
pub open spec fn line_end(s: Seq<char>) -> nat
    decreases s.len(),
{
    if s.len() == 0 {
        0
    } else if s[0] == '\n' {
        0
    } else {
        1 + line_end(s.drop_first())
    }
}

/// The text holds at least one terminated line.
pub open spec fn has_line(s: Seq<char>) -> bool {
    line_end(s) < s.len()
}

/// The first line, without its terminator.
pub open spec fn first_line(s: Seq<char>) -> Seq<char> {
    s.subrange(0, line_end(s) as int)
}

/// Everything after the first line's terminator.
pub open spec fn after_line(s: Seq<char>) -> Seq<char> {
    s.subrange(line_end(s) as int + 1, s.len() as int)
}

/// One entry read off the front of the text: the repository it describes
/// and the remaining text, or nothing when the text does not start with a
/// well-formed entry.
#[verifier::opaque]
pub open spec fn decode_entry(s: Seq<char>) -> Option<(RepoView, Seq<char>)> {
    if !has_line(s) || first_line(s) != header() {
        None
    } else {
        let s1 = after_line(s);
        if !has_line(s1) {
            None
        } else {
            let name = first_line(s1);
            let s2 = after_line(s1);
            if !has_line(s2) {
                None
            } else {
                let path = first_line(s2);
                let s3 = after_line(s2);
                if !has_line(s3) {
                    None
                } else {
                    let origin = first_line(s3);
                    let s4 = after_line(s3);
                    if !has_line(s4) {
                        None
                    } else {
                        let upstream = first_line(s4);
                        let s5 = after_line(s4);
                        if !has_line(s5) {
                            None
                        } else {
                            let branch = first_line(s5);
                            let s6 = after_line(s5);
                            let r = RepoView {
                                name,
                                path,
                                origin,
                                upstream: if upstream.len() == 0 {
                                    None
                                } else {
                                    Some(upstream)
                                },
                                branch: if branch.len() == 0 {
                                    None
                                } else {
                                    Some(branch)
                                },
                            };
                            Some((r, s6))
                        }
                    }
                }
            }
        }
    }
}

/// What the lockfile text means: the entries in order, or nothing when the
/// text is malformed (a missing marker, or a truncated entry).
pub open spec fn decode(s: Seq<char>) -> Option<Seq<RepoView>>
    decreases s.len(),
{
    if s.len() == 0 {
        Some(Seq::empty())
    } else {
        match decode_entry(s) {
            None => None,
            Some(p) => if p.1.len() < s.len() {
                match decode(p.1) {
                    None => None,
                    Some(rest) => Some(seq![p.0] + rest),
                }
            } else {
                None
            },
        }
    }
}

/// Splitting off the first line of `a + '\n' + rest` gives back `a` and
/// `rest`, provided `a` is a single line.
pub proof fn lemma_line_of_concat(a: Seq<char>, rest: Seq<char>)
    requires
        no_newline(a),
    ensures
        has_line(a + nl() + rest),
        first_line(a + nl() + rest) == a,
        after_line(a + nl() + rest) == rest,
    decreases a.len(),
{
    let s = a + nl() + rest;
    if a.len() == 0 {
        assert(s[0] == '\n');
        assert(line_end(s) == 0);
        assert(first_line(s) =~= a);
        assert(after_line(s) =~= rest);
    } else {
        assert(s[0] == a[0]);
        assert(s[0] != '\n');
        let a1 = a.drop_first();
        assert(no_newline(a1)) by {
            assert forall|i: int| 0 <= i < a1.len() implies a1[i] != '\n' by {
                assert(a1[i] == a[i + 1]);
            }
        }
        lemma_line_of_concat(a1, rest);
        assert(s.drop_first() =~= a1 + nl() + rest);
        assert(line_end(s) == 1 + line_end(a1 + nl() + rest));
        assert(line_end(s) == a.len());
        assert(first_line(s) =~= a);
        assert(after_line(s) =~= rest);
    }
}

/// The five intermediate texts that splitting an encoded entry off the
/// front passes through.
spec fn entry_tails(r: RepoView, tail: Seq<char>) -> (Seq<char>, Seq<char>, Seq<char>, Seq<
    char,
>, Seq<char>) {
    let u = opt_field(r.upstream);
    let b = opt_field(r.branch);
    let t5 = line_text(b, tail);
    let t4 = line_text(u, t5);
    let t3 = line_text(r.origin, t4);
    let t2 = line_text(r.path, t3);
    let t1 = line_text(r.name, t2);
    (t1, t2, t3, t4, t5)
}

proof fn lemma_line_text_add(a: Seq<char>, rest: Seq<char>, tail: Seq<char>)
    ensures
        line_text(a, rest) + tail == line_text(a, rest + tail),
{
    assert((a + nl() + rest) + tail =~= a + nl() + (rest + tail));
}

/// Appending more text to an encoded entry carries it into the entry's
/// trailing position.
proof fn lemma_encode_repo_then(r: RepoView, tail: Seq<char>)
    ensures
        encode_repo(r) + tail == encode_repo_then(r, tail),
{
    let u = opt_field(r.upstream);
    let b = opt_field(r.branch);
    let e5 = line_text(b, Seq::empty());
    let e4 = line_text(u, e5);
    let e3 = line_text(r.origin, e4);
    let e2 = line_text(r.path, e3);
    let e1 = line_text(r.name, e2);
    assert(Seq::<char>::empty() + tail =~= tail);
    lemma_line_text_add(b, Seq::empty(), tail);
    lemma_line_text_add(u, e5, tail);
    lemma_line_text_add(r.origin, e4, tail);
    lemma_line_text_add(r.path, e3, tail);
    lemma_line_text_add(r.name, e2, tail);
    lemma_line_text_add(header(), e1, tail);
}

/// Splitting lines off the front of an encoded entry yields the marker,
/// then each field, then the trailing text.
proof fn lemma_entry_lines(r: RepoView, tail: Seq<char>)
    requires
        lockfile_safe(r),
    ensures
        ({
            let s = encode_repo(r) + tail;
            let u = opt_field(r.upstream);
            let b = opt_field(r.branch);
            let (t1, t2, t3, t4, t5) = entry_tails(r, tail);
            &&& has_line(s) && first_line(s) == header() && after_line(s) == t1
            &&& has_line(t1) && first_line(t1) == r.name && after_line(t1) == t2
            &&& has_line(t2) && first_line(t2) == r.path && after_line(t2) == t3
            &&& has_line(t3) && first_line(t3) == r.origin && after_line(t3) == t4
            &&& has_line(t4) && first_line(t4) == u && after_line(t4) == t5
            &&& has_line(t5) && first_line(t5) == b && after_line(t5) == tail
        }),
{
    let u = opt_field(r.upstream);
    let b = opt_field(r.branch);
    let (t1, t2, t3, t4, t5) = entry_tails(r, tail);
    lemma_encode_repo_then(r, tail);
    assert(encode_repo(r) + tail == line_text(header(), t1));
    assert(no_newline(header()));
    lemma_line_of_concat(header(), t1);
    lemma_line_of_concat(r.name, t2);
    lemma_line_of_concat(r.path, t3);
    lemma_line_of_concat(r.origin, t4);
    assert(no_newline(u));
    lemma_line_of_concat(u, t5);
    assert(no_newline(b));
    lemma_line_of_concat(b, tail);
}

/// Decoding one encoded entry followed by anything peels off exactly that
/// entry.
#[verifier::rlimit(30)]
proof fn lemma_decode_entry_of_encoded(r: RepoView, tail: Seq<char>)
    requires
        lockfile_safe(r),
    ensures
        decode_entry(encode_repo(r) + tail) == Some((r, tail)),
{
    reveal(decode_entry);
    let s = encode_repo(r) + tail;
    let u = opt_field(r.upstream);
    let b = opt_field(r.branch);
    let (t1, t2, t3, t4, t5) = entry_tails(r, tail);
    lemma_entry_lines(r, tail);
    let rr = RepoView {
        name: r.name,
        path: r.path,
        origin: r.origin,
        upstream: if u.len() == 0 {
            None
        } else {
            Some(u)
        },
        branch: if b.len() == 0 {
            None
        } else {
            Some(b)
        },
    };
    assert(rr == r);
}

/// Decoding one encoded entry followed by anything peels off exactly that
/// entry.
proof fn lemma_decode_cons(r: RepoView, tail: Seq<char>)
    requires
        lockfile_safe(r),
    ensures
        decode(encode_repo(r) + tail) == match decode(tail) {
            None => None::<Seq<RepoView>>,
            Some(rest) => Some(seq![r] + rest),
        },
{
    let s = encode_repo(r) + tail;
    lemma_decode_entry_of_encoded(r, tail);
    assert(s.len() == encode_repo(r).len() + tail.len());
    assert(encode_repo(r).len() >= 9);
    assert(tail.len() < s.len());
    assert(s.len() > 0);
}

/// The mathematical image of a repository list.
pub open spec fn views_of(v: Seq<Repository>) -> Seq<RepoView> {
    v.map_values(|r: Repository| r@)
}

proof fn lemma_encode_push(rs: Seq<RepoView>, x: RepoView)
    ensures
        encode(rs.push(x)) == encode(rs) + encode_repo(x),
    decreases rs.len(),
{
    let l = rs.push(x);
    if rs.len() == 0 {
        assert(l[0] == x);
        assert(l.drop_first() =~= Seq::<RepoView>::empty());
        assert(encode(l.drop_first()) == Seq::<char>::empty());
        assert(encode(l) == encode_repo(x) + Seq::<char>::empty());
        assert(encode(rs) == Seq::<char>::empty());
        assert(encode(l) =~= encode(rs) + encode_repo(x));
    } else {
        assert(l.drop_first() =~= rs.drop_first().push(x));
        lemma_encode_push(rs.drop_first(), x);
        assert(l[0] == rs[0]);
        assert(encode(l) == encode_repo(rs[0]) + encode(l.drop_first()));
        assert(encode(l.drop_first()) == encode(rs.drop_first()) + encode_repo(x));
        assert(encode(rs) == encode_repo(rs[0]) + encode(rs.drop_first()));
        assert(encode(l) =~= encode(rs) + encode_repo(x));
    }
}

/// Build one entry's six lines of text.
#[verifier::rlimit(100)]
fn write_entry(r: &Repository) -> (t: String)
    ensures
        t@ == encode_repo(r@),
{
    let mut t = String::new();
    t.append("repo\n");
    t.append(r.name.as_str());
    t.append("\n");
    t.append(r.full_path.as_str());
    t.append("\n");
    t.append(r.origin_url.as_str());
    t.append("\n");
    match &r.upstream_url {
        Some(u) => t.append(u.as_str()),
        None => (),
    }
    t.append("\n");
    match &r.branch {
        Some(b) => t.append(b.as_str()),
        None => (),
    }
    t.append("\n");
    proof {
        reveal_strlit("repo\n");
        reveal_strlit("\n");
        assert("repo\n"@ =~= header() + nl());
        assert("\n"@ =~= nl());
        assert(t@ =~= encode_repo(r@));
    }
    t
}

/// Serialize a repository list as lockfile text. The text is a pure
/// function of the entries: writing the same list again gives the same
/// bytes. The caller hands in the lock pipeline's sorted, deduplicated
/// output.
pub fn write_lockfile(repos: &Vec<Repository>) -> (r: String)
    ensures
        r@ == encode(views_of(repos@)),
{
    let ghost vs = views_of(repos@);
    let mut out = String::new();
    let mut i: usize = 0;
    proof {
        assert(vs.subrange(0, 0) =~= Seq::<RepoView>::empty());
    }
    while i < repos.len()
        invariant
            i <= repos@.len(),
            vs == views_of(repos@),
            out@ == encode(vs.subrange(0, i as int)),
        decreases repos@.len() - i,
    {
        let entry = write_entry(&repos[i]);
        out.append(entry.as_str());
        proof {
            lemma_encode_push(vs.subrange(0, i as int), vs[i as int]);
            assert(vs.subrange(0, i + 1) =~= vs.subrange(0, i as int).push(vs[i as int]));
        }
        i = i + 1;
    }
    proof {
        assert(vs.subrange(0, vs.len() as int) =~= vs);
    }
    out
}

proof fn lemma_line_end_at(t: Seq<char>, k: int)
    requires
        0 <= k <= t.len(),
        forall|i: int| 0 <= i < k ==> t[i] != '\n',
        k < t.len() ==> t[k] == '\n',
    ensures
        line_end(t) == k,
    decreases k,
{
    if k == 0 {
    } else {
        assert(t[0] != '\n');
        let t1 = t.drop_first();
        assert forall|i: int| 0 <= i < k - 1 implies t1[i] != '\n' by {
            assert(t1[i] == t[i + 1]);
        }
        assert(k - 1 < t1.len() ==> t1[k - 1] == t[k]);
        lemma_line_end_at(t1, k - 1);
    }
}

/// Take the line starting at `from`: its text and the position just past
/// its terminator, or nothing when the rest of the text has no terminator.
fn read_line(s: &str, from: usize) -> (r: Option<(String, usize)>)
    requires
        from <= s@.len(),
    ensures
        match r {
            Some(p) => {
                let rem = s@.subrange(from as int, s@.len() as int);
                &&& has_line(rem)
                &&& p.0@ == first_line(rem)
                &&& from < p.1 <= s@.len()
                &&& s@.subrange(p.1 as int, s@.len() as int) == after_line(rem)
            },
            None => !has_line(s@.subrange(from as int, s@.len() as int)),
        },
{
    let ghost rem = s@.subrange(from as int, s@.len() as int);
    let len = s.unicode_len();
    let mut j: usize = from;
    while j < len && s.get_char(j) != '\n'
        invariant
            from <= j <= len,
            len == s@.len(),
            forall|i: int| from <= i < j ==> s@[i] != '\n',
        decreases len - j,
    {
        j = j + 1;
    }
    proof {
        assert forall|i: int| 0 <= i < j - from implies rem[i] != '\n' by {
            assert(rem[i] == s@[from + i]);
        }
        if j < len {
            assert(rem[j - from] == s@[j as int]);
        }
        lemma_line_end_at(rem, j - from);
    }
    if j == len {
        return None;
    }
    let line = s.substring_char(from, j).to_owned();
    proof {
        assert(line@ =~= first_line(rem));
        assert(s@.subrange(j + 1, s@.len() as int) =~= after_line(rem));
    }
    Some((line, j + 1))
}

fn format_error() -> (e: WorkspaceError)
    ensures
        e.kind == ErrorKind::FormatError,
{
    WorkspaceError::new(ErrorKind::FormatError, String::from_str("lockfile text is malformed"))
}

/// Read one entry starting at `pos`: the repository and the position just
/// past the entry, or a `FormatError` when the text at `pos` does not start
/// with a well-formed entry.
#[verifier::rlimit(100)]
fn read_entry(s: &str, pos: usize) -> (r: Result<(Repository, usize), WorkspaceError>)
    requires
        pos <= s@.len(),
    ensures
        ({
            let rem = s@.subrange(pos as int, s@.len() as int);
            match r {
                Ok(p) => {
                    &&& decode_entry(rem) == Some((p.0@, s@.subrange(p.1 as int, s@.len() as int)))
                    &&& pos < p.1 <= s@.len()
                },
                Err(e) => decode_entry(rem) is None && e.kind == ErrorKind::FormatError,
            }
        }),
{
    let ghost len = s@.len();
    let ghost rem = s@.subrange(pos as int, len as int);
    let (line0, p1) = match read_line(s, pos) {
        Some(x) => x,
        None => {
            proof {
                reveal(decode_entry);
            }
            return Err(format_error());
        },
    };
    if !str_eq(line0.as_str(), "repo") {
        proof {
            reveal(decode_entry);
            reveal_strlit("repo");
            assert("repo"@ =~= header());
        }
        return Err(format_error());
    }
    let (line1, p2) = match read_line(s, p1) {
        Some(x) => x,
        None => {
            proof {
                reveal(decode_entry);
            }
            return Err(format_error());
        },
    };
    let (line2, p3) = match read_line(s, p2) {
        Some(x) => x,
        None => {
            proof {
                reveal(decode_entry);
            }
            return Err(format_error());
        },
    };
    let (line3, p4) = match read_line(s, p3) {
        Some(x) => x,
        None => {
            proof {
                reveal(decode_entry);
            }
            return Err(format_error());
        },
    };
    let (line4, p5) = match read_line(s, p4) {
        Some(x) => x,
        None => {
            proof {
                reveal(decode_entry);
            }
            return Err(format_error());
        },
    };
    let (line5, p6) = match read_line(s, p5) {
        Some(x) => x,
        None => {
            proof {
                reveal(decode_entry);
            }
            return Err(format_error());
        },
    };
    let upstream = if line4.as_str().unicode_len() == 0 {
        None
    } else {
        Some(line4)
    };
    let branch = if line5.as_str().unicode_len() == 0 {
        None
    } else {
        Some(line5)
    };
    let rep = Repository::new(line1, line2, line3, upstream, branch);
    proof {
        reveal(decode_entry);
        reveal_strlit("repo");
        assert("repo"@ =~= header());
        assert(decode_entry(rem) == Some((rep@, s@.subrange(p6 as int, len as int))));
    }
    Ok((rep, p6))
}

/// Parse lockfile text. Returns the entries exactly when the text is
/// well-formed, and a `FormatError` exactly when it is not. A missing file
/// is the caller's concern, not a parse failure: callers surface it as a
/// user-actionable message.
pub fn read_lockfile(s: &str) -> (r: Result<Vec<Repository>, WorkspaceError>)
    ensures
        match r {
            Ok(v) => decode(s@) == Some(views_of(v@)),
            Err(e) => decode(s@) is None && e.kind == ErrorKind::FormatError,
        },
{
    let len = s.unicode_len();
    let mut pos: usize = 0;
    let mut out: Vec<Repository> = Vec::new();
    proof {
        assert(s@.subrange(0, s@.len() as int) =~= s@);
        if decode(s@) is Some {
            assert(views_of(out@) + decode(s@)->0 =~= decode(s@)->0);
        }
    }
    while pos < len
        invariant
            pos <= len,
            len == s@.len(),
            decode(s@) == match decode(s@.subrange(pos as int, len as int)) {
                None => None::<Seq<RepoView>>,
                Some(rest) => Some(views_of(out@) + rest),
            },
        decreases len - pos,
    {
        let ghost rem = s@.subrange(pos as int, len as int);
        proof {
            assert(rem.len() > 0);
        }
        let (rep, next) = match read_entry(s, pos) {
            Ok(x) => x,
            Err(e) => {
                return Err(e);
            },
        };
        let ghost out_before = out@;
        out.push(rep);
        proof {
            let rem6 = s@.subrange(next as int, len as int);
            assert(rem6.len() < rem.len());
            if decode(rem6) is Some {
                let rest = decode(rem6)->0;
                assert(views_of(out@) =~= views_of(out_before).push(rep@));
                assert(views_of(out_before) + (seq![rep@] + rest) =~= views_of(out@) + rest);
            }
        }
        pos = next;
    }
    proof {
        assert(s@.subrange(pos as int, len as int) =~= Seq::<char>::empty());
        assert(decode(s@) == Some(views_of(out@) + Seq::<RepoView>::empty()));
        assert(views_of(out@) + Seq::<RepoView>::empty() =~= views_of(out@));
    }
    Ok(out)
}

/// Law: the lockfile codec round-trips. Decoding an encoded entry list
/// gives back exactly those entries, so a written lockfile reproduces the
/// set it was written from; and since encoding is a function of the
/// entries, rewriting an unchanged set produces byte-identical text.
pub proof fn lemma_lockfile_round_trip(rs: Seq<RepoView>)
    requires
        forall|i: int| 0 <= i < rs.len() ==> lockfile_safe(#[trigger] rs[i]),
    ensures
        decode(encode(rs)) == Some(rs),
    decreases rs.len(),
{
    if rs.len() == 0 {
    } else {
        let rest = rs.drop_first();
        assert forall|i: int| 0 <= i < rest.len() implies lockfile_safe(#[trigger] rest[i]) by {
            assert(rest[i] == rs[i + 1]);
        }
        lemma_lockfile_round_trip(rest);
        lemma_decode_cons(rs[0], encode(rest));
        assert(seq![rs[0]] + rest =~= rs);
    }
}

} // verus!
