//! Content fingerprints: which bytes of a file are hashed, and the scan that
//! fingerprints a list of files under a list of exclusion rules.

use vstd::prelude::*;
use vstd::utf8::valid_utf8;
use vstd::slice::slice_to_vec;

use crate::data::Database;
use crate::file_exclude::{glob_match, FileExclude};

verus! {

/// The SHA-512 digest of `data`.
pub uninterp spec fn sha512_of(data: Seq<u8>) -> Seq<u8>;

/// Relies on sha2's `Sha512` through digest's `Digest::digest`: the SHA-512
/// digest of `data`, which is 64 bytes long.
#[verifier::external_body]
fn sha512(data: &[u8]) -> (r: Vec<u8>)
    ensures
        r@ == sha512_of(data@),
        r@.len() == 64,
{
    <sha2::Sha512 as sha2::Digest>::digest(data).to_vec()
}

/// Relies on std's `str::from_utf8`, which accepts exactly the well-formed
/// UTF-8 byte sequences.
#[verifier::external_body]
fn is_utf8(bytes: &[u8]) -> (r: bool)
    ensures
        r == valid_utf8(bytes@),
{
    std::str::from_utf8(bytes).is_ok()
}

/// Relies on std's `String::push`, which appends one character.
#[verifier::external_body]
fn push_char(s: &mut String, c: char)
    ensures
        final(s)@ == old(s)@.push(c),
{
    s.push(c);
}

/// Drops one `\r` at the end of a line.
pub open spec fn strip_cr(line: Seq<u8>) -> Seq<u8> {
    if line.len() > 0 && line.last() == 13u8 {
        line.drop_last()
    } else {
        line
    }
}

/// The lines of `s`, where the line being read started at `start` and reading
/// has reached `from`.
pub open spec fn lines_from(s: Seq<u8>, start: int, from: int) -> Seq<Seq<u8>>
    decreases s.len() - from,
{
    if from >= s.len() {
        if start < s.len() {
            seq![s.subrange(start, s.len() as int)]
        } else {
            Seq::empty()
        }
    } else if s[from] == 10u8 {
        seq![strip_cr(s.subrange(start, from))] + lines_from(s, from + 1, from + 1)
    } else {
        lines_from(s, start, from + 1)
    }
}

/// The lines of a text as std's `BufRead::lines` yields them: cut after each
/// `\n`, without the `\n` and without a `\r` just before it; a last line with
/// no `\n` is kept as it is, and an empty text has no lines.
pub open spec fn text_lines(s: Seq<u8>) -> Seq<Seq<u8>> {
    lines_from(s, 0, 0)
}

/// Whether `rule` leaves line `n` out of the hashed bytes.
pub open spec fn line_excluded(rule: Option<FileExclude>, n: int) -> bool {
    match rule {
        Some(r) => r.excludes_line(n),
        None => false,
    }
}

pub open spec fn rule_of(exclude: Option<&FileExclude>) -> Option<FileExclude> {
    match exclude {
        Some(r) => Some(*r),
        None => None,
    }
}

/// Each line that `rule` keeps (lines are numbered from 1), followed by `\n`.
pub open spec fn kept_bytes(lines: Seq<Seq<u8>>, rule: Option<FileExclude>) -> Seq<u8>
    decreases lines.len(),
{
    if lines.len() == 0 {
        Seq::empty()
    } else {
        let n = lines.len() - 1;
        kept_bytes(lines.take(n), rule) + if line_excluded(rule, n + 1) {
            Seq::empty()
        } else {
            lines[n].push(10u8)
        }
    }
}

/// The bytes that are hashed for a file: the kept lines of a text, or the raw
/// bytes of anything else (line exclusions do not apply to those).
pub open spec fn hash_input_of(content: Seq<u8>, is_text: bool, rule: Option<FileExclude>) -> Seq<
    u8,
> {
    if is_text {
        kept_bytes(text_lines(content), rule)
    } else {
        content
    }
}

pub open spec fn hex_digit(n: int) -> char {
    if n < 10 {
        (n + 48) as char
    } else {
        (n + 87) as char
    }
}

/// Two lowercase hexadecimal digits per byte, high digit first.
pub open spec fn lower_hex(bytes: Seq<u8>) -> Seq<char>
    decreases bytes.len(),
{
    if bytes.len() == 0 {
        Seq::empty()
    } else {
        lower_hex(bytes.drop_last()) + seq![
            hex_digit(bytes.last() as int / 16),
            hex_digit(bytes.last() as int % 16),
        ]
    }
}

/// The fingerprint of a file's content under an optional rule: files that
/// are well-formed UTF-8 are read as text, anything else as raw bytes.
pub open spec fn file_digest(content: Seq<u8>, rule: Option<FileExclude>) -> Seq<char> {
    lower_hex(sha512_of(hash_input_of(content, valid_utf8(content), rule)))
}

fn hex_char(n: u8) -> (c: char)
    requires
        n < 16,
    ensures
        c == hex_digit(n as int),
{
    if n < 10 {
        ((n + 48) as u8) as char
    } else {
        ((n + 87) as u8) as char
    }
}

/// A lowercase hexadecimal digit.
pub open spec fn is_hex_char(c: char) -> bool {
    ('0' <= c <= '9') || ('a' <= c <= 'f')
}

/// Lowercase hexadecimal text of `bytes`: two digits per byte.
pub fn to_hex(bytes: &[u8]) -> (r: String)
    ensures
        r@ == lower_hex(bytes@),
        r@.len() == 2 * bytes@.len(),
        forall|k: int| 0 <= k < r@.len() ==> is_hex_char(#[trigger] r@[k]),
{
    let mut r = String::new();
    let mut i: usize = 0;
    while i < bytes.len()
        invariant
            i <= bytes@.len(),
            r@ == lower_hex(bytes@.take(i as int)),
            r@.len() == 2 * i,
            forall|k: int| 0 <= k < r@.len() ==> is_hex_char(#[trigger] r@[k]),
        decreases bytes@.len() - i,
    {
        let b = bytes[i];
        push_char(&mut r, hex_char(b / 16));
        push_char(&mut r, hex_char(b % 16));
        assert(bytes@.take(i + 1).drop_last() =~= bytes@.take(i as int));
        i = i + 1;
    }
    assert(bytes@.take(i as int) =~= bytes@);
    r
}

/// Appends `src[start..end]` to `out`.
fn append_range(out: &mut Vec<u8>, src: &[u8], start: usize, end: usize)
    requires
        start <= end <= src@.len(),
    ensures
        final(out)@ == old(out)@ + src@.subrange(start as int, end as int),
{
    let mut j: usize = start;
    while j < end
        invariant
            start <= j <= end <= src@.len(),
            out@ == old(out)@ + src@.subrange(start as int, j as int),
        decreases end - j,
    {
        out.push(src[j]);
        assert(src@.subrange(start as int, j + 1) =~= src@.subrange(start as int, j as int).push(
            src@[j as int],
        ));
        j = j + 1;
    }
}

/// Appends one line (without its terminator, and without a `\r` before it)
/// followed by `\n`, unless the rule excludes line `line_no`.
fn append_line(
    out: &mut Vec<u8>,
    content: &[u8],
    start: usize,
    end: usize,
    strip: bool,
    line_no: usize,
    exclude: Option<&FileExclude>,
)
    requires
        start <= end <= content@.len(),
    ensures
        ({
            let line = if strip {
                strip_cr(content@.subrange(start as int, end as int))
            } else {
                content@.subrange(start as int, end as int)
            };
            final(out)@ == old(out)@ + if line_excluded(rule_of(exclude), line_no as int) {
                Seq::empty()
            } else {
                line.push(10u8)
            }
        }),
{
    let excluded = match exclude {
        Some(rule) => rule.in_lines(line_no),
        None => false,
    };
    if excluded {
        assert(out@ =~= old(out)@ + Seq::<u8>::empty());
        return;
    }
    let mut stop = end;
    if strip && start < end && content[end - 1] == 13u8 {
        stop = end - 1;
        assert(content@.subrange(start as int, end as int).drop_last() =~= content@.subrange(
            start as int,
            end - 1,
        ));
    }
    append_range(out, content, start, stop);
    out.push(10u8);
    assert(out@ =~= old(out)@ + content@.subrange(start as int, stop as int).push(10u8));
}

/// The bytes hashed for `content`: with `is_text`, each line that `exclude`
/// keeps followed by `\n`; otherwise `content` itself.
pub fn hash_input(content: &[u8], is_text: bool, exclude: Option<&FileExclude>) -> (r: Vec<u8>)
    ensures
        r@ == hash_input_of(content@, is_text, rule_of(exclude)),
{
    if !is_text {
        return slice_to_vec(content);
    }
    let ghost s = content@;
    let ghost rule = rule_of(exclude);
    let ghost mut done: Seq<Seq<u8>> = Seq::empty();
    let mut out: Vec<u8> = Vec::new();
    let mut start: usize = 0;
    let mut i: usize = 0;
    let mut count: usize = 0;
    while i < content.len()
        invariant
            s == content@,
            rule == rule_of(exclude),
            start <= i <= s.len(),
            count == done.len(),
            count <= start,
            done + lines_from(s, start as int, i as int) == text_lines(s),
            out@ == kept_bytes(done, rule),
        decreases s.len() - i,
    {
        if content[i] == 10u8 {
            let ghost line = strip_cr(s.subrange(start as int, i as int));
            assert(lines_from(s, start as int, i as int) == seq![line] + lines_from(
                s,
                i + 1,
                i + 1,
            ));
            append_line(&mut out, content, start, i, true, count + 1, exclude);
            proof {
                assert(done.push(line).take(done.len() as int) =~= done);
                assert((done + seq![line]) + lines_from(s, i + 1, i + 1) =~= done + (seq![line]
                    + lines_from(s, i + 1, i + 1)));
                assert(done + seq![line] =~= done.push(line));
                done = done.push(line);
            }
            count = count + 1;
            start = i + 1;
        } else {
            assert(lines_from(s, start as int, i as int) == lines_from(
                s,
                start as int,
                i + 1,
            ));
        }
        i = i + 1;
    }
    if start < content.len() {
        let ghost line = s.subrange(start as int, s.len() as int);
        assert(lines_from(s, start as int, i as int) == seq![line]);
        append_line(&mut out, content, start, i, false, count + 1, exclude);
        proof {
            assert(done.push(line).take(done.len() as int) =~= done);
            assert(done + seq![line] =~= done.push(line));
            done = done.push(line);
        }
    } else {
        assert(lines_from(s, start as int, i as int) =~= Seq::<Seq<u8>>::empty());
        assert(done + Seq::<Seq<u8>>::empty() =~= done);
    }
    out
}

/// The fingerprint of a file whose content is `content`, under an optional
/// exclusion rule: lowercase hexadecimal SHA-512 of the bytes that
/// `hash_input` selects, reading the content as text when it is well-formed
/// UTF-8 and as raw bytes otherwise.
pub fn hash_file(content: &[u8], exclude: Option<&FileExclude>) -> (r: String)
    ensures
        r@ == file_digest(content@, rule_of(exclude)),
        r@.len() == 128,
        forall|k: int| 0 <= k < r@.len() ==> is_hex_char(#[trigger] r@[k]),
{
    let is_text = is_utf8(content);
    let input = hash_input(content, is_text, exclude);
    let digest = sha512(input.as_slice());
    to_hex(digest.as_slice())
}

/// The first rule, in order, whose pattern matches `path`.
pub open spec fn first_matching_rule(rules: Seq<FileExclude>, path: Seq<char>) -> Option<
    FileExclude,
>
    decreases rules.len(),
{
    if rules.len() == 0 {
        None
    } else if glob_match(rules[0].pattern(), path) {
        Some(rules[0])
    } else {
        first_matching_rule(rules.drop_first(), path)
    }
}

/// Some whole-file rule (one without lines) matches `path`.
pub open spec fn whole_file_excluded(rules: Seq<FileExclude>, path: Seq<char>) -> bool {
    exists|i: int|
        0 <= i < rules.len() && (#[trigger] rules[i]).lines() is None && glob_match(
            rules[i].pattern(),
            path,
        )
}

/// The first rule, in order, whose pattern matches `path`, with or without lines.
pub fn find_exclude<'a>(rules: &'a Vec<FileExclude>, path: &str) -> (r: Option<&'a FileExclude>)
    ensures
        rule_of(r) == first_matching_rule(rules@, path@),
{
    let mut i: usize = 0;
    assert(rules@.skip(0) =~= rules@);
    while i < rules.len()
        invariant
            i <= rules@.len(),
            first_matching_rule(rules@, path@) == first_matching_rule(rules@.skip(i as int), path@),
        decreases rules@.len() - i,
    {
        assert(rules@.skip(i as int)[0] == rules@[i as int]);
        assert(rules@.skip(i as int).drop_first() =~= rules@.skip(i + 1));
        if rules[i].matches_file(path) {
            return Some(&rules[i]);
        }
        i = i + 1;
    }
    assert(rules@.skip(i as int).len() == 0);
    None
}

/// Whether a whole-file rule matches `path`, which leaves the file out of the scan.
pub fn is_whole_file_excluded(rules: &Vec<FileExclude>, path: &str) -> (r: bool)
    ensures
        r == whole_file_excluded(rules@, path@),
{
    let mut i: usize = 0;
    while i < rules.len()
        invariant
            i <= rules@.len(),
            forall|j: int|
                0 <= j < i ==> !((#[trigger] rules@[j]).lines() is None && glob_match(
                    rules@[j].pattern(),
                    path@,
                )),
        decreases rules@.len() - i,
    {
        if !rules[i].has_lines() && rules[i].matches_file(path) {
            return true;
        }
        i = i + 1;
    }
    false
}

/// The candidate paths that no whole-file rule matches, in their order.
pub fn filter_candidates(paths: Vec<String>, rules: &Vec<FileExclude>) -> (r: Vec<String>)
    ensures
        r@ == paths@.filter(|p: String| !whole_file_excluded(rules@, p@)),
{
    let ghost keep = |p: String| !whole_file_excluded(rules@, p@);
    let mut r: Vec<String> = Vec::new();
    let mut i: usize = 0;
    while i < paths.len()
        invariant
            i <= paths@.len(),
            keep == (|p: String| !whole_file_excluded(rules@, p@)),
            r@ == paths@.take(i as int).filter(keep),
        decreases paths@.len() - i,
    {
        let ghost next = paths@.take(i + 1);
        reveal(Seq::filter);
        assert(next.drop_last() =~= paths@.take(i as int));
        assert(next.last() == paths@[i as int]);
        if !is_whole_file_excluded(rules, paths[i].as_str()) {
            r.push(paths[i].clone());
            assert(next.filter(keep) == paths@.take(i as int).filter(keep).push(paths@[i as int]));
        } else {
            assert(next.filter(keep) == paths@.take(i as int).filter(keep));
        }
        i = i + 1;
    }
    assert(paths@.take(i as int) =~= paths@);
    r
}

/// The outcome of fingerprinting a list of files: digests by path for the
/// files that could be read, error descriptions by path for the others.
#[derive(Debug)]
pub struct Scan {
    pub hashes: Database,
    pub errors: Database,
}

impl Scan {
    pub open spec fn wf(&self) -> bool {
        self.hashes.wf() && self.errors.wf()
    }

    pub fn new() -> (r: Scan)
        ensures
            r.wf(),
            r.hashes@ == Map::<Seq<char>, Seq<char>>::empty(),
            r.errors@ == Map::<Seq<char>, Seq<char>>::empty(),
    {
        Scan { hashes: Database::new(), errors: Database::new() }
    }

    /// Records the file at `path`, given what reading it gave: its bytes or an
    /// error description. A file that a whole-file rule matches is left out.
    /// Otherwise the first rule that matches `path` (if any) applies to it.
    pub fn add_file(
        &mut self,
        rules: &Vec<FileExclude>,
        path: String,
        content: Result<Vec<u8>, String>,
    )
        requires
            old(self).wf(),
        ensures
            final(self).wf(),
            whole_file_excluded(rules@, path@) ==> *final(self) == *old(self),
            !whole_file_excluded(rules@, path@) && content is Ok ==> final(self).hashes@ == old(
                self,
            ).hashes@.insert(
                path@,
                file_digest(content->Ok_0@, first_matching_rule(rules@, path@)),
            ) && final(self).errors@ == old(self).errors@,
            !whole_file_excluded(rules@, path@) && content is Err ==> final(self).errors@ == old(
                self,
            ).errors@.insert(path@, content->Err_0@) && final(self).hashes@ == old(self).hashes@,
    {
        if is_whole_file_excluded(rules, path.as_str()) {
            return;
        }
        match content {
            Ok(bytes) => {
                let exclude = find_exclude(rules, path.as_str());
                let digest = hash_file(bytes.as_slice(), exclude);
                self.hashes.insert(path, digest);
            },
            Err(message) => {
                self.errors.insert(path, message);
            },
        }
    }
}

proof fn lemma_kept_bytes_agree(a: Seq<Seq<u8>>, b: Seq<Seq<u8>>, rule: Option<FileExclude>)
    requires
        a.len() == b.len(),
        forall|i: int| 0 <= i < a.len() && !line_excluded(rule, i + 1) ==> #[trigger] a[i] == b[i],
    ensures
        kept_bytes(a, rule) == kept_bytes(b, rule),
    decreases a.len(),
{
    if a.len() > 0 {
        let n = a.len() - 1;
        lemma_kept_bytes_agree(a.take(n), b.take(n), rule);
    }
}

/// Lines that a rule excludes do not count: two texts with as many lines,
/// equal on every line the rule keeps, have the same fingerprint under it.
pub proof fn lemma_excluded_lines_ignored(a: Seq<u8>, b: Seq<u8>, rule: FileExclude)
    requires
        valid_utf8(a),
        valid_utf8(b),
        text_lines(a).len() == text_lines(b).len(),
        forall|i: int|
            0 <= i < text_lines(a).len() && !rule.excludes_line(i + 1) ==> #[trigger] text_lines(a)[i]
                == text_lines(b)[i],
    ensures
        hash_input_of(a, true, Some(rule)) == hash_input_of(b, true, Some(rule)),
        file_digest(a, Some(rule)) == file_digest(b, Some(rule)),
{
    lemma_kept_bytes_agree(text_lines(a), text_lines(b), Some(rule));
}

/// Content that is not well-formed UTF-8 is hashed as its raw bytes, so no
/// rule, line-scoped or not, changes its fingerprint.
pub proof fn lemma_binary_ignores_rules(content: Seq<u8>, a: Option<FileExclude>, b: Option<FileExclude>)
    requires
        !valid_utf8(content),
    ensures
        hash_input_of(content, valid_utf8(content), a) == content,
        file_digest(content, a) == file_digest(content, b),
        file_digest(content, a) == lower_hex(sha512_of(content)),
{
}

pub open spec fn no_newline(line: Seq<u8>) -> bool {
    forall|j: int| 0 <= j < line.len() ==> #[trigger] line[j] != 10u8
}

proof fn lemma_lines_have_no_newline(s: Seq<u8>, start: int, from: int)
    requires
        0 <= start <= from,
        forall|k: int| start <= k < from && k < s.len() ==> #[trigger] s[k] != 10u8,
    ensures
        forall|i: int|
            0 <= i < lines_from(s, start, from).len() ==> no_newline(
                #[trigger] lines_from(s, start, from)[i],
            ),
    decreases s.len() - from,
{
    if from >= s.len() {
        if start < s.len() {
            let l = s.subrange(start, s.len() as int);
            assert(lines_from(s, start, from) == seq![l]);
            assert forall|j: int| 0 <= j < l.len() implies #[trigger] l[j] != 10u8 by {
                assert(l[j] == s[start + j]);
            }
            assert(no_newline(l));
            assert(lines_from(s, start, from)[0] == l);
        }
    } else if s[from] == 10u8 {
        let l = strip_cr(s.subrange(start, from));
        lemma_lines_have_no_newline(s, from + 1, from + 1);
        assert forall|j: int| 0 <= j < l.len() implies #[trigger] l[j] != 10u8 by {
            assert(l[j] == s[start + j]);
        }
        let rest = lines_from(s, from + 1, from + 1);
        assert forall|i: int| 0 <= i < lines_from(s, start, from).len() implies no_newline(
            #[trigger] lines_from(s, start, from)[i],
        ) by {
            if i > 0 {
                assert(lines_from(s, start, from)[i] == rest[i - 1]);
            }
        }
    } else {
        assert(lines_from(s, start, from) == lines_from(s, start, from + 1));
        lemma_lines_have_no_newline(s, start, from + 1);
    }
}

proof fn lemma_kept_bytes_end(lines: Seq<Seq<u8>>, rule: Option<FileExclude>)
    ensures
        kept_bytes(lines, rule).len() > 0 ==> kept_bytes(lines, rule).last() == 10u8,
    decreases lines.len(),
{
    if lines.len() > 0 {
        lemma_kept_bytes_end(lines.take(lines.len() - 1), rule);
    }
}

proof fn lemma_kept_bytes_differ(a: Seq<Seq<u8>>, b: Seq<Seq<u8>>, rule: Option<FileExclude>, i: int)
    requires
        a.len() == b.len(),
        forall|k: int| 0 <= k < a.len() ==> no_newline(#[trigger] a[k]),
        forall|k: int| 0 <= k < b.len() ==> no_newline(#[trigger] b[k]),
        0 <= i < a.len(),
        !line_excluded(rule, i + 1),
        a[i] != b[i],
    ensures
        kept_bytes(a, rule) != kept_bytes(b, rule),
    decreases a.len(),
{
    let n = a.len() - 1;
    let x = kept_bytes(a.take(n), rule);
    let y = kept_bytes(b.take(n), rule);
    lemma_kept_bytes_end(a.take(n), rule);
    lemma_kept_bytes_end(b.take(n), rule);
    assert(a[n] == a[a.len() - 1] && b[n] == b[b.len() - 1]);
    if i < n {
        assert(a.take(n)[i] == a[i] && b.take(n)[i] == b[i]);
        assert forall|k: int| 0 <= k < a.take(n).len() implies no_newline(#[trigger] a.take(n)[k]) by {
            assert(a.take(n)[k] == a[k]);
        }
        assert forall|k: int| 0 <= k < b.take(n).len() implies no_newline(#[trigger] b.take(n)[k]) by {
            assert(b.take(n)[k] == b[k]);
        }
        lemma_kept_bytes_differ(a.take(n), b.take(n), rule, i);
        if !line_excluded(rule, n + 1) && kept_bytes(a, rule) == kept_bytes(b, rule) {
            lemma_same_split(x, a[n], y, b[n]);
        }
    } else if kept_bytes(a, rule) == kept_bytes(b, rule) {
        lemma_same_split(x, a[n], y, b[n]);
    }
}

/// `x + la + \n == y + lb + \n`, where `x` and `y` are empty or end in `\n`
/// and neither line holds `\n`, splits only one way.
proof fn lemma_same_split(x: Seq<u8>, la: Seq<u8>, y: Seq<u8>, lb: Seq<u8>)
    requires
        no_newline(la),
        no_newline(lb),
    ensures
        (x.len() == 0 || x.last() == 10u8) && (y.len() == 0 || y.last() == 10u8) && x + la.push(10u8)
            == y + lb.push(10u8) ==> x == y && la == lb,
{
    if (x.len() == 0 || x.last() == 10u8) && (y.len() == 0 || y.last() == 10u8) && x + la.push(10u8)
        == y + lb.push(10u8) {
        let whole = x + la.push(10u8);
        assert(whole =~= y + lb.push(10u8));
        if x.len() < y.len() {
            let k = y.len() - 1;
            assert(whole[k] == y[k]);
            assert(whole[k] == la.push(10u8)[k - x.len()]);
            if k - x.len() < la.len() {
                assert(la[k - x.len()] != 10u8);
            } else {
                assert(k - x.len() == la.len());
                assert(whole.len() == x.len() + la.len() + 1);
                assert(whole.len() == y.len() + lb.len() + 1);
            }
        } else if y.len() < x.len() {
            let k = x.len() - 1;
            assert(whole[k] == x[k]);
            assert(whole[k] == lb.push(10u8)[k - y.len()]);
            if k - y.len() < lb.len() {
                assert(lb[k - y.len()] != 10u8);
            } else {
                assert(whole.len() == x.len() + la.len() + 1);
                assert(whole.len() == y.len() + lb.len() + 1);
            }
        }
        assert(x =~= whole.take(x.len() as int));
        assert(y =~= whole.take(y.len() as int));
        assert(la.push(10u8) =~= whole.skip(x.len() as int));
        assert(lb.push(10u8) =~= whole.skip(y.len() as int));
        assert(la =~= la.push(10u8).drop_last());
        assert(lb =~= lb.push(10u8).drop_last());
    }
}

/// A line that the rule keeps counts: two texts with as many lines that
/// differ on a kept line have different hashed bytes.
pub proof fn lemma_kept_line_counts(a: Seq<u8>, b: Seq<u8>, rule: Option<FileExclude>, i: int)
    requires
        text_lines(a).len() == text_lines(b).len(),
        0 <= i < text_lines(a).len(),
        !line_excluded(rule, i + 1),
        text_lines(a)[i] != text_lines(b)[i],
    ensures
        hash_input_of(a, true, rule) != hash_input_of(b, true, rule),
{
    lemma_lines_have_no_newline(a, 0, 0);
    lemma_lines_have_no_newline(b, 0, 0);
    lemma_kept_bytes_differ(text_lines(a), text_lines(b), rule, i);
}

proof fn lemma_all_kept_injective(a: Seq<Seq<u8>>, b: Seq<Seq<u8>>)
    requires
        forall|k: int| 0 <= k < a.len() ==> no_newline(#[trigger] a[k]),
        forall|k: int| 0 <= k < b.len() ==> no_newline(#[trigger] b[k]),
        kept_bytes(a, None) == kept_bytes(b, None),
    ensures
        a == b,
    decreases a.len() + b.len(),
{
    if a.len() == 0 && b.len() == 0 {
        assert(a =~= b);
    } else if a.len() == 0 {
        assert(kept_bytes(b, None).len() > 0);
    } else if b.len() == 0 {
        assert(kept_bytes(a, None).len() > 0);
    } else {
        let na = a.len() - 1;
        let nb = b.len() - 1;
        lemma_kept_bytes_end(a.take(na), None);
        lemma_kept_bytes_end(b.take(nb), None);
        lemma_same_split(kept_bytes(a.take(na), None), a[na], kept_bytes(b.take(nb), None), b[nb]);
        assert forall|k: int| 0 <= k < a.take(na).len() implies no_newline(#[trigger] a.take(na)[k]) by {
            assert(a.take(na)[k] == a[k]);
        }
        assert forall|k: int| 0 <= k < b.take(nb).len() implies no_newline(#[trigger] b.take(nb)[k]) by {
            assert(b.take(nb)[k] == b[k]);
        }
        lemma_all_kept_injective(a.take(na), b.take(nb));
        assert(a =~= a.take(na).push(a[na]));
        assert(b =~= b.take(nb).push(b[nb]));
    }
}

/// Without a rule, the hashed bytes of a text determine its lines: texts
/// whose lines differ, in number or in content, are hashed from different
/// bytes (so a text of one empty line and one of two differ).
pub proof fn lemma_lines_determine_input(a: Seq<u8>, b: Seq<u8>)
    requires
        text_lines(a) != text_lines(b),
    ensures
        hash_input_of(a, true, None) != hash_input_of(b, true, None),
{
    lemma_lines_have_no_newline(a, 0, 0);
    lemma_lines_have_no_newline(b, 0, 0);
    if hash_input_of(a, true, None) == hash_input_of(b, true, None) {
        lemma_all_kept_injective(text_lines(a), text_lines(b));
    }
}

} // verus!
