//! Mined development patterns and the rules that produce them from commit
//! history: conventional-commit parsing, automated-commit detection,
//! language tagging, and content-addressed pattern ids.
//!
//! Walking an actual repository is I/O and lives outside the library; the
//! functions here take the plain commit data (message, parent count,
//! timestamp, changed paths) and decide everything else.

use vstd::prelude::*;

verus! {

/// A mined development pattern: one qualifying commit, summarized.
pub struct Pattern {
    /// Content-addressed identifier: hex SHA-256 of commit sha and description.
    pub id: String,
    /// Human-readable summary, derived from the commit subject.
    pub description: String,
    /// Affected file paths, de-duplicated.
    pub file_paths: Vec<String>,
    /// The commit this pattern was mined from.
    pub commit_sha: String,
    /// Commit timestamp, Unix seconds.
    pub timestamp: i64,
    /// Commit-type tag plus inferred language and framework tags.
    pub tags: Vec<String>,
}

/// Ghost image of a [`Pattern`].
pub struct PatternView {
    pub id: Seq<char>,
    pub description: Seq<char>,
    pub file_paths: Seq<Seq<char>>,
    pub commit_sha: Seq<char>,
    pub timestamp: i64,
    pub tags: Seq<Seq<char>>,
}

impl View for Pattern {
    type V = PatternView;

    open spec fn view(&self) -> PatternView {
        PatternView {
            id: self.id@,
            description: self.description@,
            file_paths: self.file_paths.deep_view(),
            commit_sha: self.commit_sha@,
            timestamp: self.timestamp,
            tags: self.tags.deep_view(),
        }
    }
}

impl Clone for Pattern {
    fn clone(&self) -> (res: Self)
        ensures
            res@ == self@,
    {
        let res = Pattern {
            id: self.id.clone(),
            description: self.description.clone(),
            file_paths: self.file_paths.clone(),
            commit_sha: self.commit_sha.clone(),
            timestamp: self.timestamp,
            tags: self.tags.clone(),
        };
        proof {
            assert(res.file_paths.deep_view() =~= self.file_paths.deep_view());
            assert(res.tags.deep_view() =~= self.tags.deep_view());
        }
        res
    }
}

} // verus!

use sha2::Digest;
use vstd::string::{StrSliceExecFns, StringExecFns};

verus! {

/// Names the result of sha2's SHA-256 digest: a function of the input bytes
/// alone.
pub uninterp spec fn sha256_of(data: Seq<u8>) -> Seq<u8>;

/// Relies on sha2's `Sha256`: the digest has 32 bytes and depends on the
/// input bytes alone.
#[verifier::external_body]
fn sha256(data: &Vec<u8>) -> (r: Vec<u8>)
    ensures
        r@ == sha256_of(data@),
        r@.len() == 32,
{
    sha2::Sha256::digest(data.as_slice()).to_vec()
}

/// The lower-case hex digit character for `d`.
pub open spec fn hex_char(d: nat) -> char {
    if d == 0 {
        '0'
    } else if d == 1 {
        '1'
    } else if d == 2 {
        '2'
    } else if d == 3 {
        '3'
    } else if d == 4 {
        '4'
    } else if d == 5 {
        '5'
    } else if d == 6 {
        '6'
    } else if d == 7 {
        '7'
    } else if d == 8 {
        '8'
    } else if d == 9 {
        '9'
    } else if d == 10 {
        'a'
    } else if d == 11 {
        'b'
    } else if d == 12 {
        'c'
    } else if d == 13 {
        'd'
    } else if d == 14 {
        'e'
    } else {
        'f'
    }
}

/// Lower-case hex rendering of a byte string, two digits per byte.
pub open spec fn hex_of(data: Seq<u8>) -> Seq<char>
    decreases data.len(),
{
    if data.len() == 0 {
        Seq::empty()
    } else {
        hex_of(data.drop_last()) + seq![
            hex_char((data.last() / 16) as nat),
            hex_char((data.last() % 16) as nat),
        ]
    }
}

/// One hex digit as a string slice.
fn hex_digit_str(d: u8) -> (r: &'static str)
    requires
        d < 16,
    ensures
        r@ == seq![hex_char(d as nat)],
{
    proof {
        reveal_strlit("a");
        reveal_strlit("b");
        reveal_strlit("c");
        reveal_strlit("d");
        reveal_strlit("e");
        reveal_strlit("f");
    }
    if d < 10 {
        crate::text::digit_str(d as u64)
    } else {
        match d {
            10 => "a",
            11 => "b",
            12 => "c",
            13 => "d",
            14 => "e",
            _ => "f",
        }
    }
}

/// Hex text has two characters per byte.
pub proof fn lemma_hex_of_len(data: Seq<u8>)
    ensures
        hex_of(data).len() == 2 * data.len(),
    decreases data.len(),
{
    if data.len() > 0 {
        lemma_hex_of_len(data.drop_last());
    }
}

/// The hex text of a byte string.
pub fn hex_string(data: &Vec<u8>) -> (r: String)
    ensures
        r@ == hex_of(data@),
{
    let mut s = String::new();
    let mut i: usize = 0;
    while i < data.len()
        invariant
            0 <= i <= data@.len(),
            s@ == hex_of(data@.take(i as int)),
        decreases data@.len() - i,
    {
        let b: u8 = data[i];
        let ghost s0 = s@;
        s.append(hex_digit_str(b / 16));
        s.append(hex_digit_str(b % 16));
        proof {
            assert(data@.take(i as int + 1).drop_last() =~= data@.take(i as int));
            assert(data@.take(i as int + 1).last() == data@[i as int]);
            assert(s@ =~= hex_of(data@.take(i as int)) + seq![
                hex_char((data@[i as int] / 16) as nat),
                hex_char((data@[i as int] % 16) as nat),
            ]);
        }
        i = i + 1;
    }
    proof {
        assert(data@.take(data@.len() as int) =~= data@);
    }
    s
}

/// The content-addressed pattern id: hex SHA-256 of the commit sha's bytes
/// followed by the description's bytes.  Re-extracting the same commit and
/// description always yields the same id.
pub open spec fn pattern_id_of(commit_sha: Seq<char>, description: Seq<char>) -> Seq<char> {
    hex_of(sha256_of(vstd::utf8::encode_utf8(commit_sha) + vstd::utf8::encode_utf8(description)))
}

impl Pattern {
    /// The stable, content-addressed id for a commit and description.
    pub fn generate_id(commit_sha: &str, description: &str) -> (r: String)
        ensures
            r@ == pattern_id_of(commit_sha@, description@),
            r@.len() == 64,
    {
        let mut data: Vec<u8> = commit_sha.as_bytes_vec();
        let mut rest: Vec<u8> = description.as_bytes_vec();
        data.append(&mut rest);
        let digest = sha256(&data);
        proof {
            lemma_hex_of_len(digest@);
        }
        hex_string(&digest)
    }
}

} // verus!

verus! {

/// The characters of `s`, as a vector.
fn str_to_chars(s: &str) -> (v: Vec<char>)
    ensures
        v@ == s@,
{
    let n: usize = s.unicode_len();
    let mut v: Vec<char> = Vec::new();
    let mut i: usize = 0;
    while i < n
        invariant
            0 <= i <= n,
            n == s@.len(),
            v@.len() == i,
            forall|j: int| 0 <= j < i ==> v@[j] == s@[j],
        decreases n - i,
    {
        v.push(s.get_char(i));
        i = i + 1;
    }
    proof {
        assert(v@ =~= s@);
    }
    v
}

/// Index of the first newline in `s`, or `s.len()` when there is none.
pub open spec fn newline_index(s: Seq<char>) -> int
    decreases s.len(),
{
    if s.len() == 0 {
        0
    } else if s[0] == '\n' {
        0
    } else {
        1 + newline_index(s.drop_first())
    }
}

/// The first line of a commit message.
pub open spec fn first_line(s: Seq<char>) -> Seq<char> {
    s.take(newline_index(s))
}

/// `newline_index` is the first newline position, or the length.
pub proof fn lemma_newline_index(s: Seq<char>)
    ensures
        0 <= newline_index(s) <= s.len(),
        forall|j: int| 0 <= j < newline_index(s) ==> s[j] != '\n',
        newline_index(s) < s.len() ==> s[newline_index(s)] == '\n',
    decreases s.len(),
{
    if s.len() > 0 && s[0] != '\n' {
        lemma_newline_index(s.drop_first());
        assert forall|j: int| 0 <= j < newline_index(s) implies s[j] != '\n' by {
            if j > 0 {
                assert(s.drop_first()[j - 1] != '\n');
            }
        }
    }
}

/// Whether `t` is one of the conventional commit types.
pub open spec fn is_commit_type(t: Seq<char>) -> bool {
    ||| t == "feat"@
    ||| t == "fix"@
    ||| t == "docs"@
    ||| t == "style"@
    ||| t == "refactor"@
    ||| t == "perf"@
    ||| t == "test"@
    ||| t == "chore"@
    ||| t == "build"@
    ||| t == "ci"@
}

/// The conventional-commit grammar for a first line: a known type, an
/// optional nonempty parenthesized scope free of closing parens, a colon and
/// space, and a nonempty subject.
pub open spec fn is_conventional(
    line: Seq<char>,
    ctype: Seq<char>,
    scope: Option<Seq<char>>,
    subject: Seq<char>,
) -> bool {
    &&& is_commit_type(ctype)
    &&& subject.len() > 0
    &&& match scope {
        None => line == ctype + seq![':', ' '] + subject,
        Some(sc) => {
            &&& sc.len() > 0
            &&& (forall|j: int| 0 <= j < sc.len() ==> sc[j] != ')')
            &&& line == ctype + seq!['('] + sc + seq![')', ':', ' '] + subject
        },
    }
}

/// The line parses as a conventional commit with this type and subject,
/// under some scope.
pub open spec fn conventional_parse(line: Seq<char>, ctype: Seq<char>, subject: Seq<char>) -> bool {
    exists|sc: Option<Seq<char>>| is_conventional(line, ctype, sc, subject)
}

/// No conventional reading of `line` uses type `t`, under any scope.
pub open spec fn no_parse_as(line: Seq<char>, t: Seq<char>) -> bool {
    forall|sc: Option<Seq<char>>, sub: Seq<char>| !is_conventional(line, t, sc, sub)
}

/// Index of the first closing paren in `[from, to)`, or `to` when none.
fn find_close_paren(chars: &Vec<char>, from: usize, to: usize) -> (r: usize)
    requires
        from <= to <= chars@.len(),
    ensures
        from <= r <= to,
        forall|j: int| from <= j < r ==> chars@[j] != ')',
        r < to ==> chars@[r as int] == ')',
{
    let mut q: usize = from;
    while q < to && chars[q] != ')'
        invariant
            from <= q <= to,
            to <= chars@.len(),
            forall|j: int| from <= j < q ==> chars@[j] != ')',
        decreases to - q,
    {
        q = q + 1;
    }
    q
}

/// Whether the characters at `pos` in `chars` spell out `lit`.
fn starts_with_at(chars: &Vec<char>, pos: usize, lit: &str) -> (r: bool)
    requires
        pos <= chars@.len(),
    ensures
        r == (pos + lit@.len() <= chars@.len() && chars@.subrange(
            pos as int,
            pos as int + lit@.len() as int,
        ) == lit@),
{
    let lit_chars = str_to_chars(lit);
    let clen: usize = chars.len();
    if clen - pos < lit_chars.len() {
        return false;
    }
    let mut j: usize = 0;
    while j < lit_chars.len()
        invariant
            0 <= j <= lit_chars@.len(),
            lit_chars@ == lit@,
            clen == chars@.len(),
            pos + lit_chars@.len() <= clen,
            forall|q: int| 0 <= q < j ==> chars@[pos + q] == lit@[q],
        decreases lit_chars@.len() - j,
    {
        if chars[pos + j] != lit_chars[j] {
            proof {
                assert(chars@.subrange(pos as int, pos as int + lit@.len() as int)[j as int]
                    != lit@[j as int]);
            }
            return false;
        }
        j = j + 1;
    }
    proof {
        assert(chars@.subrange(pos as int, pos as int + lit@.len() as int) =~= lit@);
    }
    true
}

/// Parses a commit message's first line as a conventional commit.  A parsed
/// line yields its type and subject; any other line defaults to type
/// `chore` with the whole first line as subject.
pub fn parse_commit_message(message: &str) -> (r: (String, String))
    ensures
        conventional_parse(first_line(message@), r.0@, r.1@) || (r.0@ == "chore"@ && r.1@
            == first_line(message@) && (forall|t: Seq<char>, sc: Option<Seq<char>>, sub: Seq<char>|
            !is_conventional(first_line(message@), t, sc, sub))),
{
    let chars = str_to_chars(message);
    let mut nl: usize = 0;
    while nl < chars.len() && chars[nl] != '\n'
        invariant
            0 <= nl <= chars@.len(),
            chars@ == message@,
            forall|j: int| 0 <= j < nl ==> chars@[j] != '\n',
        decreases chars@.len() - nl,
    {
        nl = nl + 1;
    }
    proof {
        lemma_newline_index(message@);
        if nl < chars@.len() {
            assert(newline_index(message@) == nl) by {
                if newline_index(message@) < nl {
                    assert(message@[newline_index(message@)] != '\n');
                } else if newline_index(message@) > nl {
                    assert(message@[nl as int] != '\n');
                }
            }
        } else {
            assert(newline_index(message@) == nl) by {
                if newline_index(message@) < nl {
                    assert(message@[newline_index(message@)] != '\n');
                }
            }
        }
    }
    let line_str = message.substring_char(0, nl);
    proof {
        assert(line_str@ == first_line(message@));
    }
    let kinds: [&'static str; 10] = [
        "feat",
        "fix",
        "docs",
        "style",
        "refactor",
        "perf",
        "test",
        "chore",
        "build",
        "ci",
    ];
    let mut k: usize = 0;
    while k < 10
        invariant
            0 <= k <= 10,
            chars@ == message@,
            line_str@ == first_line(message@),
            nl as int == newline_index(message@),
            nl <= chars@.len(),
            kinds@.len() == 10,
            kinds@[0]@ == "feat"@ && kinds@[1]@ == "fix"@ && kinds@[2]@ == "docs"@ && kinds@[3]@
                == "style"@ && kinds@[4]@ == "refactor"@ && kinds@[5]@ == "perf"@ && kinds@[6]@
                == "test"@ && kinds@[7]@ == "chore"@ && kinds@[8]@ == "build"@ && kinds@[9]@
                == "ci"@,
            forall|j: int|
                0 <= j < k ==> no_parse_as(first_line(message@), #[trigger] kinds@[j]@),
        decreases 10 - k,
    {
        let t: &'static str = kinds[k];
        proof {
            assert(is_commit_type(t@));
        }
        let tlen: usize = t.unicode_len();
        let q: usize = if tlen < nl {
            find_close_paren(&chars, tlen + 1, nl)
        } else {
            nl
        };
        if tlen <= nl && starts_with_at(&chars, 0, t) {
            proof {
                assert(chars@.subrange(0, tlen as int) =~= first_line(message@).subrange(
                    0,
                    tlen as int,
                ));
            }
            if nl - tlen >= 3 && chars[tlen] == ':' && chars[tlen + 1] == ' ' {
                let subject = message.substring_char(tlen + 2, nl).to_owned();
                let ctype = t.to_owned();
                proof {
                    assert(first_line(message@) =~= t@ + seq![':', ' '] + subject@);
                    assert(is_conventional(first_line(message@), ctype@, None, subject@));
                    assert(conventional_parse(first_line(message@), ctype@, subject@));
                }
                return (ctype, subject);
            }
            if tlen < nl && chars[tlen] == '(' && q < nl && q > tlen + 1 && nl - q >= 4 && chars[q
                + 1] == ':' && chars[q + 2] == ' ' {
                let subject = message.substring_char(q + 3, nl).to_owned();
                let scope_ghost: Ghost<Seq<char>> = Ghost(
                    message@.subrange(tlen as int + 1, q as int),
                );
                let ctype = t.to_owned();
                proof {
                    let sc = scope_ghost@;
                    assert(sc.len() > 0);
                    assert forall|j: int| 0 <= j < sc.len() implies sc[j] != ')' by {
                        assert(sc[j] == chars@[tlen + 1 + j]);
                    }
                    assert(first_line(message@) =~= t@ + seq!['('] + sc + seq![')', ':', ' ']
                        + subject@);
                    assert(is_conventional(first_line(message@), ctype@, Some(sc), subject@));
                    assert(conventional_parse(first_line(message@), ctype@, subject@));
                }
                return (ctype, subject);
            }
        }
        proof {
            let fl = first_line(message@);
            assert forall|sub: Seq<char>| !is_conventional(fl, t@, None, sub) by {
                if is_conventional(fl, t@, None, sub) {
                    assert(fl == t@ + seq![':', ' '] + sub);
                    assert(fl.len() == tlen + 2 + sub.len());
                    assert(fl.len() == nl);
                    assert(chars@.subrange(0, tlen as int) =~= t@) by {
                        assert forall|x: int| 0 <= x < tlen implies chars@[x] == t@[x] by {
                            assert(fl[x] == (t@ + seq![':', ' '] + sub)[x]);
                        }
                    }
                    assert(chars@[tlen as int] == fl[tlen as int]);
                    assert(fl[tlen as int] == (t@ + seq![':', ' '] + sub)[tlen as int]);
                    assert(fl[tlen as int] == ':');
                    assert(chars@[tlen as int + 1] == fl[tlen as int + 1]);
                    assert(fl[tlen as int + 1] == ' ');
                }
            }
            assert forall|sc: Seq<char>, sub: Seq<char>|
                !is_conventional(fl, t@, Some(sc), sub) by {
                if is_conventional(fl, t@, Some(sc), sub) {
                    let body = t@ + seq!['('] + sc + seq![')', ':', ' '] + sub;
                    assert(fl == body);
                    assert(fl.len() == tlen + 4 + sc.len() + sub.len());
                    assert(fl.len() == nl);
                    assert(chars@.subrange(0, tlen as int) =~= t@) by {
                        assert forall|x: int| 0 <= x < tlen implies chars@[x] == t@[x] by {
                            assert(fl[x] == body[x]);
                        }
                    }
                    assert(chars@[tlen as int] == fl[tlen as int]);
                    assert(fl[tlen as int] == '(');
                    let pc = tlen as int + 1 + sc.len() as int;
                    assert(fl[pc] == ')');
                    assert(chars@[pc] == fl[pc]);
                    assert forall|x: int| tlen + 1 <= x < pc implies chars@[x] != ')' by {
                        assert(chars@[x] == fl[x]);
                        assert(fl[x] == sc[x - tlen - 1]);
                    }
                    assert(q as int == pc) by {
                        if (q as int) < pc {
                            assert(chars@[q as int] == ')');
                        } else if (q as int) > pc {
                            assert(chars@[pc] != ')');
                        }
                    }
                    assert(chars@[q as int + 1] == fl[pc + 1]);
                    assert(fl[pc + 1] == ':');
                    assert(chars@[q as int + 2] == fl[pc + 2]);
                    assert(fl[pc + 2] == ' ');
                    assert(sub.len() > 0);
                    assert(false);
                }
            }
            assert(no_parse_as(first_line(message@), t@)) by {
                assert forall|sc: Option<Seq<char>>, sub: Seq<char>|
                    !is_conventional(fl, t@, sc, sub) by {
                    match sc {
                        None => {
                            assert(!is_conventional(fl, t@, None, sub));
                        },
                        Some(scv) => {
                            assert(!is_conventional(fl, t@, Some(scv), sub));
                        },
                    }
                }
            }
        }
        k = k + 1;
    }
    let ctype = "chore".to_owned();
    let subject = line_str.to_owned();
    proof {
        let fl = first_line(message@);
        assert forall|t: Seq<char>, sc: Option<Seq<char>>, sub: Seq<char>|
            !is_conventional(fl, t, sc, sub) by {
            if is_conventional(fl, t, sc, sub) {
                assert(is_commit_type(t));
                if t == "feat"@ {
                    assert(kinds@[0]@ == t);
                } else if t == "fix"@ {
                    assert(kinds@[1]@ == t);
                } else if t == "docs"@ {
                    assert(kinds@[2]@ == t);
                } else if t == "style"@ {
                    assert(kinds@[3]@ == t);
                } else if t == "refactor"@ {
                    assert(kinds@[4]@ == t);
                } else if t == "perf"@ {
                    assert(kinds@[5]@ == t);
                } else if t == "test"@ {
                    assert(kinds@[6]@ == t);
                } else if t == "chore"@ {
                    assert(kinds@[7]@ == t);
                } else if t == "build"@ {
                    assert(kinds@[8]@ == t);
                } else {
                    assert(kinds@[9]@ == t);
                }
                assert(no_parse_as(fl, t));
            }
        }
    }
    (ctype, subject)
}

} // verus!

verus! {

/// Whether `sub` occurs contiguously inside `s`.
pub open spec fn has_substring(s: Seq<char>, sub: Seq<char>) -> bool {
    exists|i: int| 0 <= i <= s.len() - sub.len() && #[trigger] s.subrange(i, i + sub.len() as int) == sub
}

/// Whether `sub` occurs in `chars`.
fn contains_sub(chars: &Vec<char>, sub: &str) -> (r: bool)
    ensures
        r == has_substring(chars@, sub@),
{
    let sub_chars = str_to_chars(sub);
    let n: usize = chars.len();
    let m: usize = sub_chars.len();
    if m > n {
        return false;
    }
    if m == 0 {
        proof {
            assert(chars@.subrange(0int, 0int + sub@.len() as int) =~= sub@);
        }
        return true;
    }
    let mut i: usize = 0;
    while i <= n - m
        invariant
            0 <= i <= n - m + 1,
            1 <= m <= n,
            n == chars@.len(),
            m == sub@.len(),
            sub_chars@ == sub@,
            forall|q: int|
                0 <= q < i ==> #[trigger] chars@.subrange(q, q + sub@.len() as int) != sub@,
        decreases n - m + 1 - i,
    {
        if starts_with_at(chars, i, sub) {
            proof {
                assert(chars@.subrange(i as int, i as int + sub@.len() as int) == sub@);
            }
            return true;
        }
        i = i + 1;
    }
    proof {
        if has_substring(chars@, sub@) {
            let q = choose|q: int|
                0 <= q <= chars@.len() - sub@.len() && #[trigger] chars@.subrange(
                    q,
                    q + sub@.len() as int,
                ) == sub@;
            assert(chars@.subrange(q, q + sub@.len() as int) != sub@);
        }
    }
    false
}

/// Whether the message carries one of the fixed automated-commit markers, as
/// a case-sensitive substring.
pub open spec fn is_automated(message: Seq<char>) -> bool {
    ||| has_substring(message, "Merge pull request"@)
    ||| has_substring(message, "Merge branch"@)
    ||| has_substring(message, "Auto-generated"@)
    ||| has_substring(message, "Automated commit"@)
    ||| has_substring(message, "Version bump"@)
    ||| has_substring(message, "[skip ci]"@)
    ||| has_substring(message, "[ci skip]"@)
}

/// Whether a commit message is automated and must not become a pattern.
pub fn is_automated_commit(message: &str) -> (r: bool)
    ensures
        r == is_automated(message@),
{
    let chars = str_to_chars(message);
    contains_sub(&chars, "Merge pull request") || contains_sub(&chars, "Merge branch")
        || contains_sub(&chars, "Auto-generated") || contains_sub(&chars, "Automated commit")
        || contains_sub(&chars, "Version bump") || contains_sub(&chars, "[skip ci]")
        || contains_sub(&chars, "[ci skip]")
}

/// Whether `s` ends with `suffix`.
pub open spec fn ends_with(s: Seq<char>, suffix: Seq<char>) -> bool {
    s.len() >= suffix.len() && s.subrange(s.len() - suffix.len(), s.len() as int) == suffix
}

/// Whether `chars` ends with `suffix`.
fn ends_with_exec(chars: &Vec<char>, suffix: &str) -> (r: bool)
    ensures
        r == ends_with(chars@, suffix@),
{
    let sub_chars = str_to_chars(suffix);
    let n: usize = chars.len();
    let m: usize = sub_chars.len();
    if m > n {
        return false;
    }
    let r = starts_with_at(chars, n - m, suffix);
    r
}

/// Whether the language or framework tag `t` applies to any of the paths:
/// the fixed extension table plus the path-substring heuristics.
pub open spec fn lang_tag_applies(paths: Seq<Seq<char>>, t: Seq<char>) -> bool {
    exists|i: int|
        0 <= i < paths.len() && lang_tag_for_path(#[trigger] paths[i], t)
}

/// The extension table and path heuristics for one path.
pub open spec fn lang_tag_for_path(p: Seq<char>, t: Seq<char>) -> bool {
    ||| (t == "rust"@ && ends_with(p, ".rs"@))
    ||| (t == "python"@ && ends_with(p, ".py"@))
    ||| (t == "typescript"@ && (ends_with(p, ".ts"@) || ends_with(p, ".tsx"@)))
    ||| (t == "javascript"@ && (ends_with(p, ".js"@) || ends_with(p, ".jsx"@)))
    ||| (t == "go"@ && ends_with(p, ".go"@))
    ||| (t == "java"@ && ends_with(p, ".java"@))
    ||| (t == "c"@ && (ends_with(p, ".c"@) || ends_with(p, ".h"@)))
    ||| (t == "cpp"@ && (ends_with(p, ".cpp"@) || ends_with(p, ".cc"@) || ends_with(p, ".cxx"@)
        || ends_with(p, ".hpp"@)))
    ||| (t == "react"@ && (has_substring(p, "react"@) || ends_with(p, ".jsx"@) || ends_with(
        p,
        ".tsx"@,
    )))
    ||| (t == "fastapi"@ && (has_substring(p, "fastapi"@) || (has_substring(p, "api"@)
        && ends_with(p, ".py"@))))
}

/// Appends `tag` to `out` unless it is already present.
fn push_tag(out: &mut Vec<String>, tag: &str)
    ensures
        final(out).deep_view() == crate::vector_store::push_if_missing(
            old(out).deep_view(),
            tag@,
        ),
{
    let ghost o0 = old(out).deep_view();
    let owned: String = tag.to_owned();
    let mut found = false;
    let mut j: usize = 0;
    while j < out.len()
        invariant
            0 <= j <= out@.len(),
            out.deep_view() == o0,
            owned@ == tag@,
            !found ==> forall|q: int| 0 <= q < j ==> #[trigger] o0[q] != tag@,
            found ==> o0.contains(tag@),
        decreases out@.len() - j,
    {
        if out[j] == owned {
            proof {
                assert(o0[j as int] == tag@);
            }
            found = true;
        }
        proof {
            assert(o0[j as int] == out@[j as int]@);
        }
        j = j + 1;
    }
    if !found {
        proof {
            if o0.contains(tag@) {
                let q = choose|q: int| 0 <= q < o0.len() && o0[q] == tag@;
                assert(o0[q] != tag@);
            }
        }
        out.push(owned);
        proof {
            assert(out.deep_view() =~= o0.push(tag@));
        }
    }
}

/// Derives language and framework tags from file paths: the returned tags
/// are exactly those the extension table or a path heuristic justifies on
/// some path, each once.
pub fn extract_language_tags(file_paths: &Vec<String>) -> (r: Vec<String>)
    ensures
        crate::vector_store::no_dup_ids(r.deep_view()),
        forall|t: Seq<char>|
            r.deep_view().contains(t) <==> lang_tag_applies(file_paths.deep_view(), t),
{
    let mut out: Vec<String> = Vec::new();
    let mut i: usize = 0;
    while i < file_paths.len()
        invariant
            0 <= i <= file_paths@.len(),
            crate::vector_store::no_dup_ids(out.deep_view()),
            forall|t: Seq<char>|
                out.deep_view().contains(t) <==> exists|j: int|
                    0 <= j < i && lang_tag_for_path(#[trigger] file_paths.deep_view()[j], t),
        decreases file_paths@.len() - i,
    {
        let chars = str_to_chars(file_paths[i].as_str());
        proof {
            assert(chars@ == file_paths.deep_view()[i as int]);
        }
        let pt = tags_for_path(&chars);
        let mut qi: usize = 0;
        while qi < pt.len()
            invariant
                0 <= qi <= pt@.len(),
                0 <= i < file_paths@.len(),
                chars@ == file_paths.deep_view()[i as int],
                forall|t: Seq<char>|
                    pt.deep_view().contains(t) <==> lang_tag_for_path(chars@, t),
                crate::vector_store::no_dup_ids(out.deep_view()),
                forall|t: Seq<char>|
                    out.deep_view().contains(t) <==> ((exists|j: int|
                        0 <= j < i && lang_tag_for_path(#[trigger] file_paths.deep_view()[j], t))
                        || (exists|q2: int| 0 <= q2 < qi && pt.deep_view()[q2] == t)),
            decreases pt@.len() - qi,
        {
            let ghost o0 = out.deep_view();
            let ghost tv = pt.deep_view()[qi as int];
            proof {
                crate::vector_store::lemma_push_if_missing_no_dups(o0, tv);
                assert(pt.deep_view()[qi as int] == pt@[qi as int]@);
            }
            push_tag(&mut out, pt[qi].as_str());
            proof {
                assert forall|t: Seq<char>|
                    out.deep_view().contains(t) <==> ((exists|j: int|
                        0 <= j < i && lang_tag_for_path(#[trigger] file_paths.deep_view()[j], t))
                        || (exists|q2: int| 0 <= q2 < qi + 1 && pt.deep_view()[q2] == t)) by {
                    crate::similarity::lemma_push_contains(o0, tv, t);
                    if t == tv {
                        assert(pt.deep_view()[qi as int] == t);
                    }
                }
            }
            qi = qi + 1;
        }
        proof {
            assert forall|t: Seq<char>|
                out.deep_view().contains(t) <==> exists|j: int|
                    0 <= j < i + 1 && lang_tag_for_path(
                        #[trigger] file_paths.deep_view()[j],
                        t,
                    ) by {
                assert((exists|q2: int|
                    0 <= q2 < pt.deep_view().len() && pt.deep_view()[q2] == t)
                    == pt.deep_view().contains(t));
                if lang_tag_for_path(file_paths.deep_view()[i as int], t) {
                    assert(pt.deep_view().contains(t));
                }
            }
        }
        i = i + 1;
    }
    out
}

} // verus!

verus! {

/// The plain facts about one commit that the extraction rules consume; the
/// application walks the repository and fills one of these per commit.
pub struct CommitInfo {
    /// The commit sha, as hex text.
    pub sha: String,
    /// The full commit message.
    pub message: String,
    /// Commit timestamp, Unix seconds.
    pub timestamp: i64,
    /// Number of parents; more than one marks a merge commit.
    pub parent_count: usize,
    /// Paths changed by the commit's diff against its first parent.
    pub file_paths: Vec<String>,
}

/// De-duplicates paths, keeping first occurrences.
fn dedup_paths(paths: &Vec<String>) -> (r: Vec<String>)
    ensures
        crate::vector_store::no_dup_ids(r.deep_view()),
        forall|p: Seq<char>| r.deep_view().contains(p) <==> paths.deep_view().contains(p),
{
    let mut out: Vec<String> = Vec::new();
    let mut i: usize = 0;
    while i < paths.len()
        invariant
            0 <= i <= paths@.len(),
            crate::vector_store::no_dup_ids(out.deep_view()),
            forall|p: Seq<char>|
                out.deep_view().contains(p) <==> (exists|j: int|
                    0 <= j < i && #[trigger] paths.deep_view()[j] == p),
        decreases paths@.len() - i,
    {
        let ghost o0 = out.deep_view();
        let ghost pv = paths.deep_view()[i as int];
        proof {
            crate::vector_store::lemma_push_if_missing_no_dups(o0, pv);
            assert(paths.deep_view()[i as int] == paths@[i as int]@);
        }
        push_tag(&mut out, paths[i].as_str());
        proof {
            assert forall|p: Seq<char>|
                out.deep_view().contains(p) <==> (exists|j: int|
                    0 <= j < i + 1 && #[trigger] paths.deep_view()[j] == p) by {
                crate::similarity::lemma_push_contains(o0, pv, p);
                if p == pv {
                    assert(paths.deep_view()[i as int] == p);
                }
            }
        }
        i = i + 1;
    }
    proof {
        assert forall|p: Seq<char>|
            out.deep_view().contains(p) <==> paths.deep_view().contains(p) by {
        }
    }
    out
}

/// Turns one commit's facts into a pattern, or nothing: automated commits
/// and commits that change no files yield no pattern.  The pattern carries
/// the parsed type as its first tag, the inferred language tags, the
/// de-duplicated paths, and the content-addressed id.
pub fn extract_from_commit_info(info: &CommitInfo) -> (r: Option<Pattern>)
    ensures
        match r {
            Some(p) => {
                &&& !is_automated(info.message@)
                &&& info.parent_count <= 1
                &&& p.commit_sha@ == info.sha@
                &&& p.timestamp == info.timestamp
                &&& p.id@ == pattern_id_of(info.sha@, p.description@)
                &&& (conventional_parse(
                    first_line(info.message@),
                    p.tags.deep_view()[0],
                    p.description@,
                ) || (p.tags.deep_view()[0] == "chore"@ && p.description@ == first_line(
                    info.message@,
                )))
                &&& p.tags.deep_view().len() >= 1
                &&& forall|t: Seq<char>|
                    p.tags.deep_view().contains(t) ==> t == p.tags.deep_view()[0]
                        || lang_tag_applies(p.file_paths.deep_view(), t)
                &&& forall|t: Seq<char>|
                    lang_tag_applies(p.file_paths.deep_view(), t) ==> p.tags.deep_view().contains(
                        t,
                    )
                &&& crate::vector_store::no_dup_ids(p.file_paths.deep_view())
                &&& forall|q: Seq<char>|
                    p.file_paths.deep_view().contains(q) <==> info.file_paths.deep_view().contains(
                        q,
                    )
                &&& p.file_paths.deep_view().len() > 0
            },
            None => is_automated(info.message@) || info.file_paths.deep_view().len() == 0
                || info.parent_count > 1,
        },
{
    if info.parent_count > 1 {
        return None;
    }
    if is_automated_commit(info.message.as_str()) {
        return None;
    }
    let parsed = parse_commit_message(info.message.as_str());
    let ctype = parsed.0;
    let description = parsed.1;
    let file_paths = dedup_paths(&info.file_paths);
    if file_paths.len() == 0 {
        proof {
            if info.file_paths.deep_view().len() > 0 {
                assert(info.file_paths.deep_view().contains(info.file_paths.deep_view()[0]));
                assert(file_paths.deep_view().contains(info.file_paths.deep_view()[0]));
            }
        }
        return None;
    }
    let mut tags: Vec<String> = Vec::new();
    tags.push(ctype);
    let ghost ctv = tags.deep_view()[0];
    let lang = extract_language_tags(&file_paths);
    let mut li: usize = 0;
    while li < lang.len()
        invariant
            0 <= li <= lang@.len(),
            tags.deep_view().len() >= 1,
            tags.deep_view()[0] == ctv,
            forall|t: Seq<char>|
                lang.deep_view().contains(t) <==> lang_tag_applies(file_paths.deep_view(), t),
            forall|t: Seq<char>|
                tags.deep_view().contains(t) ==> t == ctv || lang_tag_applies(
                    file_paths.deep_view(),
                    t,
                ),
            forall|q: int| 0 <= q < li ==> tags.deep_view().contains(#[trigger] lang.deep_view()[q]),
        decreases lang@.len() - li,
    {
        let ghost t0 = tags.deep_view();
        let ghost lv = lang.deep_view()[li as int];
        tags.push(lang[li].clone());
        proof {
            assert(lang.deep_view()[li as int] == lang@[li as int]@);
            assert(tags.deep_view() =~= t0.push(lv));
            assert(lang.deep_view().contains(lv));
            assert forall|t: Seq<char>|
                tags.deep_view().contains(t) implies t == ctv || lang_tag_applies(
                file_paths.deep_view(),
                t,
            ) by {
                crate::similarity::lemma_push_contains(t0, lv, t);
            }
            assert forall|q: int|
                0 <= q < li + 1 implies tags.deep_view().contains(
                #[trigger] lang.deep_view()[q]) by {
                crate::similarity::lemma_push_contains(t0, lv, lang.deep_view()[q]);
            }
        }
        li = li + 1;
    }
    proof {
        assert forall|t: Seq<char>|
            lang_tag_applies(file_paths.deep_view(), t) implies tags.deep_view().contains(t) by {
            assert(lang.deep_view().contains(t));
            let q = choose|q: int| 0 <= q < lang.deep_view().len() && lang.deep_view()[q] == t;
            assert(tags.deep_view().contains(lang.deep_view()[q]));
        }
    }
    let id = Pattern::generate_id(info.sha.as_str(), description.as_str());
    let p = Pattern {
        id,
        description,
        file_paths,
        commit_sha: info.sha.clone(),
        timestamp: info.timestamp,
        tags,
    };
    Some(p)
}

} // verus!

verus! {

/// The language and framework tags one path triggers, each exactly once.
#[verifier::rlimit(100)]
fn tags_for_path(chars: &Vec<char>) -> (r: Vec<String>)
    ensures
        crate::vector_store::no_dup_ids(r.deep_view()),
        forall|t: Seq<char>| r.deep_view().contains(t) <==> lang_tag_for_path(chars@, t),
{
    let c_rust = ends_with_exec(chars, ".rs");
    let c_python = ends_with_exec(chars, ".py");
    let c_ts = ends_with_exec(chars, ".ts") || ends_with_exec(chars, ".tsx");
    let c_js = ends_with_exec(chars, ".js") || ends_with_exec(chars, ".jsx");
    let c_go = ends_with_exec(chars, ".go");
    let c_java = ends_with_exec(chars, ".java");
    let c_c = ends_with_exec(chars, ".c") || ends_with_exec(chars, ".h");
    let c_cpp = ends_with_exec(chars, ".cpp") || ends_with_exec(chars, ".cc") || ends_with_exec(
        chars,
        ".cxx",
    ) || ends_with_exec(chars, ".hpp");
    let c_react = contains_sub(chars, "react") || ends_with_exec(chars, ".jsx") || ends_with_exec(
        chars,
        ".tsx",
    );
    let c_fastapi = contains_sub(chars, "fastapi") || (contains_sub(chars, "api")
        && ends_with_exec(chars, ".py"));
    let mut out: Vec<String> = Vec::new();
    let ghost g0 = out.deep_view();
    if c_rust {
        push_tag(&mut out, "rust");
    }
    proof {
        crate::vector_store::lemma_push_if_missing_no_dups(g0, "rust"@);
        assert forall|t: Seq<char>| out.deep_view().contains(t) <==> ((c_rust && t == "rust"@)) by {
            crate::similarity::lemma_push_contains(g0, "rust"@, t);
        }
    }
    let ghost g1 = out.deep_view();
    if c_python {
        push_tag(&mut out, "python");
    }
    proof {
        crate::vector_store::lemma_push_if_missing_no_dups(g1, "python"@);
        assert forall|t: Seq<char>| out.deep_view().contains(t) <==> ((c_rust && t == "rust"@) || (c_python && t == "python"@)) by {
            crate::similarity::lemma_push_contains(g1, "python"@, t);
        }
    }
    let ghost g2 = out.deep_view();
    if c_ts {
        push_tag(&mut out, "typescript");
    }
    proof {
        crate::vector_store::lemma_push_if_missing_no_dups(g2, "typescript"@);
        assert forall|t: Seq<char>| out.deep_view().contains(t) <==> ((c_rust && t == "rust"@) || (c_python && t == "python"@) || (c_ts && t == "typescript"@)) by {
            crate::similarity::lemma_push_contains(g2, "typescript"@, t);
        }
    }
    let ghost g3 = out.deep_view();
    if c_js {
        push_tag(&mut out, "javascript");
    }
    proof {
        crate::vector_store::lemma_push_if_missing_no_dups(g3, "javascript"@);
        assert forall|t: Seq<char>| out.deep_view().contains(t) <==> ((c_rust && t == "rust"@) || (c_python && t == "python"@) || (c_ts && t == "typescript"@) || (c_js && t == "javascript"@)) by {
            crate::similarity::lemma_push_contains(g3, "javascript"@, t);
        }
    }
    let ghost g4 = out.deep_view();
    if c_go {
        push_tag(&mut out, "go");
    }
    proof {
        crate::vector_store::lemma_push_if_missing_no_dups(g4, "go"@);
        assert forall|t: Seq<char>| out.deep_view().contains(t) <==> ((c_rust && t == "rust"@) || (c_python && t == "python"@) || (c_ts && t == "typescript"@) || (c_js && t == "javascript"@) || (c_go && t == "go"@)) by {
            crate::similarity::lemma_push_contains(g4, "go"@, t);
        }
    }
    let ghost g5 = out.deep_view();
    if c_java {
        push_tag(&mut out, "java");
    }
    proof {
        crate::vector_store::lemma_push_if_missing_no_dups(g5, "java"@);
        assert forall|t: Seq<char>| out.deep_view().contains(t) <==> ((c_rust && t == "rust"@) || (c_python && t == "python"@) || (c_ts && t == "typescript"@) || (c_js && t == "javascript"@) || (c_go && t == "go"@) || (c_java && t == "java"@)) by {
            crate::similarity::lemma_push_contains(g5, "java"@, t);
        }
    }
    let ghost g6 = out.deep_view();
    if c_c {
        push_tag(&mut out, "c");
    }
    proof {
        crate::vector_store::lemma_push_if_missing_no_dups(g6, "c"@);
        assert forall|t: Seq<char>| out.deep_view().contains(t) <==> ((c_rust && t == "rust"@) || (c_python && t == "python"@) || (c_ts && t == "typescript"@) || (c_js && t == "javascript"@) || (c_go && t == "go"@) || (c_java && t == "java"@) || (c_c && t == "c"@)) by {
            crate::similarity::lemma_push_contains(g6, "c"@, t);
        }
    }
    let ghost g7 = out.deep_view();
    if c_cpp {
        push_tag(&mut out, "cpp");
    }
    proof {
        crate::vector_store::lemma_push_if_missing_no_dups(g7, "cpp"@);
        assert forall|t: Seq<char>| out.deep_view().contains(t) <==> ((c_rust && t == "rust"@) || (c_python && t == "python"@) || (c_ts && t == "typescript"@) || (c_js && t == "javascript"@) || (c_go && t == "go"@) || (c_java && t == "java"@) || (c_c && t == "c"@) || (c_cpp && t == "cpp"@)) by {
            crate::similarity::lemma_push_contains(g7, "cpp"@, t);
        }
    }
    let ghost g8 = out.deep_view();
    if c_react {
        push_tag(&mut out, "react");
    }
    proof {
        crate::vector_store::lemma_push_if_missing_no_dups(g8, "react"@);
        assert forall|t: Seq<char>| out.deep_view().contains(t) <==> ((c_rust && t == "rust"@) || (c_python && t == "python"@) || (c_ts && t == "typescript"@) || (c_js && t == "javascript"@) || (c_go && t == "go"@) || (c_java && t == "java"@) || (c_c && t == "c"@) || (c_cpp && t == "cpp"@) || (c_react && t == "react"@)) by {
            crate::similarity::lemma_push_contains(g8, "react"@, t);
        }
    }
    let ghost g9 = out.deep_view();
    if c_fastapi {
        push_tag(&mut out, "fastapi");
    }
    proof {
        crate::vector_store::lemma_push_if_missing_no_dups(g9, "fastapi"@);
        assert forall|t: Seq<char>| out.deep_view().contains(t) <==> ((c_rust && t == "rust"@) || (c_python && t == "python"@) || (c_ts && t == "typescript"@) || (c_js && t == "javascript"@) || (c_go && t == "go"@) || (c_java && t == "java"@) || (c_c && t == "c"@) || (c_cpp && t == "cpp"@) || (c_react && t == "react"@) || (c_fastapi && t == "fastapi"@)) by {
            crate::similarity::lemma_push_contains(g9, "fastapi"@, t);
        }
    }

    out
}

} // verus!

verus! {

/// What the newest-first history walk does with one commit, for the date
/// window `[since, until]`.
pub enum WalkAction {
    /// End the walk: this commit, and everything after it in a newest-first
    /// walk, is older than the window.
    Stop,
    /// Pass over this commit: newer than the window's end.
    Skip,
    /// The commit lies inside the window.
    Take,
}

/// The walk decision for a commit at `timestamp` against `[since, until]`.
pub fn date_window_action(timestamp: i64, since: i64, until: i64) -> (r: WalkAction)
    ensures
        r is Stop <==> timestamp < since,
        r is Skip <==> (timestamp >= since && timestamp > until),
        r is Take <==> (since <= timestamp && timestamp <= until),
{
    if timestamp < since {
        WalkAction::Stop
    } else if timestamp > until {
        WalkAction::Skip
    } else {
        WalkAction::Take
    }
}

/// Whether any of the paths matches the glob; a malformed glob is an input
/// error, never a panic.
pub fn any_path_matches(paths: &Vec<String>, glob: &str) -> (r: Result<
    bool,
    crate::TemporalAIError,
>)
    ensures
        match r {
            Ok(b) => crate::globs::glob_valid(glob@) && (b <==> exists|j: int|
                0 <= j < paths.deep_view().len() && crate::globs::glob_matches(
                    glob@,
                    #[trigger] paths.deep_view()[j],
                )),
            Err(e) => e is IoError && !crate::globs::glob_valid(glob@),
        },
{
    match crate::globs::glob_check(glob) {
        Err(msg) => Err(crate::TemporalAIError::IoError(msg)),
        Ok(()) => {
            let mut j: usize = 0;
            while j < paths.len()
                invariant
                    0 <= j <= paths@.len(),
                    crate::globs::glob_valid(glob@),
                    forall|q: int|
                        0 <= q < j ==> !crate::globs::glob_matches(
                            glob@,
                            #[trigger] paths.deep_view()[q],
                        ),
                decreases paths@.len() - j,
            {
                proof {
                    assert(paths.deep_view()[j as int] == paths@[j as int]@);
                }
                if crate::globs::glob_match(glob, paths[j].as_str()) {
                    return Ok(true);
                }
                j = j + 1;
            }
            Ok(false)
        },
    }
}

} // verus!
