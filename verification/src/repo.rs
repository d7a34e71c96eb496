//! Target discovery collaborators: the scan-depth setting and its parser,
//! repository names extracted from paths, and the depth-honouring walk over a
//! directory tree that finds the repositories to run against.
//!
//! Paths are plain character strings with `/` separating components; the
//! caller that reads the filesystem hands the walk a tree of directory
//! entries as data.

use vstd::prelude::*;

verus! {

broadcast use
    vstd::seq_lib::group_to_multiset_ensures,
    vstd::multiset::group_multiset_axioms,
;

/// How deep the repository scan descends; `All` means without limit.
#[derive(Debug, Clone, Copy, PartialEq, Eq, Structural)]
pub enum ScanDepth {
    All,
    Depth(usize),
}

impl ScanDepth {
    /// The depth bound, if one is set.
    fn max_depth(self) -> (r: Option<usize>)
        ensures
            r == match self {
                ScanDepth::All => None::<usize>,
                ScanDepth::Depth(depth) => Some(depth),
            },
    {
        match self {
            ScanDepth::All => None,
            ScanDepth::Depth(depth) => Some(depth),
        }
    }
}

/// Whitespace as the scan-depth parser strips it.
pub open spec fn spec_is_space(c: char) -> bool {
    c == ' ' || c == '\t' || c == '\n' || c == '\r' || c == '\u{b}' || c == '\u{c}'
}

/// `s` without leading whitespace.
pub open spec fn spec_trim_start(s: Seq<char>) -> Seq<char>
    decreases s.len(),
{
    if s.len() > 0 && spec_is_space(s.first()) {
        spec_trim_start(s.drop_first())
    } else {
        s
    }
}

/// `s` without trailing whitespace.
pub open spec fn spec_trim_end(s: Seq<char>) -> Seq<char>
    decreases s.len(),
{
    if s.len() > 0 && spec_is_space(s.last()) {
        spec_trim_end(s.drop_last())
    } else {
        s
    }
}

/// `s` without leading and trailing whitespace.
pub open spec fn spec_trim(s: Seq<char>) -> Seq<char> {
    spec_trim_end(spec_trim_start(s))
}

/// The keyword `all`, in any letter case.
pub open spec fn spec_is_all_keyword(s: Seq<char>) -> bool {
    s.len() == 3 && (s[0] == 'a' || s[0] == 'A') && (s[1] == 'l' || s[1] == 'L') && (s[2] == 'l'
        || s[2] == 'L')
}

/// Whether every character of `s` is a decimal digit, and there is at least
/// one.
pub open spec fn spec_is_digits(s: Seq<char>) -> bool {
    s.len() > 0 && forall|i: int| 0 <= i < s.len() ==> '0' <= #[trigger] s[i] <= '9'
}

/// The numeric value of a digit string.
pub open spec fn spec_digits_value(s: Seq<char>) -> int
    decreases s.len(),
{
    if s.len() == 0 {
        0
    } else {
        spec_digits_value(s.drop_last()) * 10 + (s.last() as int - '0' as int)
    }
}

/// The digits of a number written with an optional leading plus sign.
pub open spec fn spec_number_body(s: Seq<char>) -> Seq<char> {
    if s.len() > 0 && s[0] == '+' {
        s.drop_first()
    } else {
        s
    }
}

/// Whether `s` is a decimal number (optionally signed with `+`) whose value
/// fits the machine's word.
pub open spec fn spec_is_usize_number(s: Seq<char>) -> bool {
    spec_is_digits(spec_number_body(s)) && spec_digits_value(spec_number_body(s)) <= usize::MAX
}

proof fn lemma_digits_value_nonneg(s: Seq<char>)
    requires
        forall|i: int| 0 <= i < s.len() ==> '0' <= #[trigger] s[i] <= '9',
    ensures
        spec_digits_value(s) >= 0,
    decreases s.len(),
{
    if s.len() > 0 {
        lemma_digits_value_nonneg(s.drop_last());
    }
}

/// A digit string is worth at least any of its prefixes.
proof fn lemma_digits_value_prefix_le(s: Seq<char>, k: int)
    requires
        forall|i: int| 0 <= i < s.len() ==> '0' <= #[trigger] s[i] <= '9',
        0 <= k <= s.len(),
    ensures
        spec_digits_value(s.subrange(0, k)) <= spec_digits_value(s),
    decreases s.len() - k,
{
    if k < s.len() {
        lemma_digits_value_prefix_le(s, k + 1);
        let p = s.subrange(0, k);
        let q = s.subrange(0, k + 1);
        assert(q.drop_last() =~= p);
        lemma_digits_value_nonneg(p);
    } else {
        assert(s.subrange(0, k) =~= s);
    }
}

/// Parse a scan depth: the keyword `all` (in any case) or a positive
/// integer, with surrounding whitespace ignored.
///
/// The contract pins the whole behaviour down: `all` gives `ScanDepth::All`;
/// a representable positive number gives its depth; a representable zero is
/// rejected with the positivity message; anything else, a zero, a
/// non-number, or a number too large for the machine, is rejected with the
/// invalid-input message naming the given text.
pub fn parse_scan_depth(value: &str) -> (r: Result<ScanDepth, String>)
    ensures
        ({
            let t = spec_trim(value@);
            let body = spec_number_body(t);
            &&& (spec_is_all_keyword(t) ==> r == Ok::<ScanDepth, String>(ScanDepth::All))
            &&& (!spec_is_all_keyword(t) && spec_is_usize_number(t) && spec_digits_value(body) > 0
                ==> (r matches Ok(d) && d == ScanDepth::Depth(spec_digits_value(body) as usize)))
            &&& (!spec_is_all_keyword(t) && spec_is_usize_number(t) && spec_digits_value(body) == 0
                ==> (r matches Err(e) && e@ == "scan depth must be a positive integer or \"all\""@))
            &&& (!spec_is_all_keyword(t) && !spec_is_usize_number(t) ==> (r matches Err(e) && e@
                == "invalid scan depth: "@ + value@ + ". Use a positive integer or \"all\"."@))
        }),
{
    let n = value.unicode_len();
    let mut lo: usize = 0;
    proof {
        assert(value@.subrange(0, n as int) =~= value@);
    }
    while lo < n && is_space(value.get_char(lo))
        invariant
            lo <= n,
            n == value@.len(),
            spec_trim_start(value@) == spec_trim_start(value@.subrange(lo as int, n as int)),
        decreases n - lo,
    {
        proof {
            let s = value@.subrange(lo as int, n as int);
            assert(s.drop_first() =~= value@.subrange(lo as int + 1, n as int));
        }
        lo = lo + 1;
    }
    proof {
        let s = value@.subrange(lo as int, n as int);
        assert(spec_trim_start(s) == s);
    }
    let mut hi: usize = n;
    while hi > lo && is_space(value.get_char(hi - 1))
        invariant
            lo <= hi <= n,
            n == value@.len(),
            spec_trim_start(value@) == value@.subrange(lo as int, n as int),
            spec_trim_end(value@.subrange(lo as int, n as int)) == spec_trim_end(
                value@.subrange(lo as int, hi as int),
            ),
        decreases hi,
    {
        proof {
            let s = value@.subrange(lo as int, hi as int);
            assert(s.drop_last() =~= value@.subrange(lo as int, hi as int - 1));
        }
        hi = hi - 1;
    }
    let ghost t = spec_trim(value@);
    proof {
        let s = value@.subrange(lo as int, hi as int);
        if hi > lo {
            assert(spec_trim_end(s) == s);
        } else {
            assert(s =~= Seq::<char>::empty());
            assert(spec_trim_end(s) == s);
        }
        assert(t =~= value@.subrange(lo as int, hi as int));
    }

    // The keyword `all`, in any letter case.
    if hi - lo == 3 {
        let c0 = value.get_char(lo);
        let c1 = value.get_char(lo + 1);
        let c2 = value.get_char(lo + 2);
        if (c0 == 'a' || c0 == 'A') && (c1 == 'l' || c1 == 'L') && (c2 == 'l' || c2 == 'L') {
            return Ok(ScanDepth::All);
        }
    }
    proof {
        assert(!spec_is_all_keyword(t));
    }

    // A decimal number, optionally written with a leading plus sign.
    let mut pos = lo;
    if pos < hi && value.get_char(pos) == '+' {
        pos = pos + 1;
    }
    let ghost body = spec_number_body(t);
    proof {
        assert(body =~= value@.subrange(pos as int, hi as int));
    }
    if pos == hi {
        return Err(invalid_depth_message(value));
    }
    let mut acc: usize = 0;
    let mut k = pos;
    while k < hi
        invariant
            pos <= k <= hi <= n,
            n == value@.len(),
            t == spec_trim(value@),
            !spec_is_all_keyword(t),
            body == spec_number_body(t),
            body == value@.subrange(pos as int, hi as int),
            forall|i: int| pos <= i < k ==> '0' <= #[trigger] value@[i] <= '9',
            acc as int == spec_digits_value(value@.subrange(pos as int, k as int)),
        decreases hi - k,
    {
        let c = value.get_char(k);
        if c < '0' || c > '9' {
            proof {
                assert(body[k - pos] == value@[k as int]);
                assert(!spec_is_digits(body));
            }
            return Err(invalid_depth_message(value));
        }
        let d = (c as u32 - '0' as u32) as usize;
        let next = match acc.checked_mul(10) {
            Some(m) => m.checked_add(d),
            None => None,
        };
        proof {
            let p = value@.subrange(pos as int, k as int + 1);
            assert(p.drop_last() =~= value@.subrange(pos as int, k as int));
            assert(p.last() == value@[k as int]);
        }
        match next {
            Some(v) => {
                acc = v;
            },
            None => {
                proof {
                    if spec_is_digits(body) {
                        assert(value@.subrange(pos as int, k as int + 1) =~= body.subrange(
                            0,
                            k - pos + 1,
                        ));
                        lemma_digits_value_prefix_le(body, k - pos + 1);
                        assert(spec_digits_value(body) > usize::MAX);
                    }
                    assert(!spec_is_usize_number(t));
                }
                return Err(invalid_depth_message(value));
            },
        }
        k = k + 1;
    }
    proof {
        assert(body =~= value@.subrange(pos as int, hi as int));
        assert(acc as int == spec_digits_value(body));
        assert forall|i: int| 0 <= i < body.len() implies '0' <= #[trigger] body[i] <= '9' by {
            assert(body[i] == value@[pos + i]);
        }
        assert(spec_is_digits(body));
    }
    if acc == 0 {
        return Err("scan depth must be a positive integer or \"all\"".to_owned());
    }
    Ok(ScanDepth::Depth(acc))
}

/// `s` without its trailing `/` characters.
pub open spec fn spec_strip_trailing_slashes(s: Seq<char>) -> Seq<char>
    decreases s.len(),
{
    if s.len() > 0 && s.last() == '/' {
        spec_strip_trailing_slashes(s.drop_last())
    } else {
        s
    }
}

/// The longest suffix of `s` without a `/`.
pub open spec fn spec_tail_component(s: Seq<char>) -> Seq<char>
    decreases s.len(),
{
    if s.len() == 0 || s.last() == '/' {
        Seq::empty()
    } else {
        spec_tail_component(s.drop_last()).push(s.last())
    }
}

/// The repository name in a path: its last component, or `unknown` where the
/// path has none (it is empty or only separators).
pub open spec fn spec_repo_name(path: Seq<char>) -> Seq<char> {
    if spec_tail_component(spec_strip_trailing_slashes(path)).len() == 0 {
        "unknown"@
    } else {
        spec_tail_component(spec_strip_trailing_slashes(path))
    }
}

/// Extract just the repository name from a path.
pub fn repo_name(path: &str) -> (r: String)
    ensures
        r@ == spec_repo_name(path@),
{
    let n = path.unicode_len();
    let mut end = n;
    proof {
        assert(path@.subrange(0, n as int) =~= path@);
    }
    while end > 0 && path.get_char(end - 1) == '/'
        invariant
            end <= n,
            n == path@.len(),
            spec_strip_trailing_slashes(path@) == spec_strip_trailing_slashes(
                path@.subrange(0, end as int),
            ),
        decreases end,
    {
        proof {
            let s = path@.subrange(0, end as int);
            assert(s.drop_last() =~= path@.subrange(0, end as int - 1));
        }
        end = end - 1;
    }
    proof {
        let s = path@.subrange(0, end as int);
        assert(spec_strip_trailing_slashes(s) == s);
    }
    let mut start = end;
    while start > 0 && path.get_char(start - 1) != '/'
        invariant
            start <= end <= n,
            n == path@.len(),
            spec_strip_trailing_slashes(path@) == path@.subrange(0, end as int),
            spec_tail_component(path@.subrange(0, end as int)) == spec_tail_component(
                path@.subrange(0, start as int),
            ) + path@.subrange(start as int, end as int),
        decreases start,
    {
        proof {
            let s = path@.subrange(0, start as int);
            assert(s.drop_last() =~= path@.subrange(0, start as int - 1));
            assert(spec_tail_component(path@.subrange(0, start as int - 1)).push(s.last())
                + path@.subrange(start as int, end as int) =~= spec_tail_component(
                path@.subrange(0, start as int - 1),
            ) + path@.subrange(start as int - 1, end as int));
        }
        start = start - 1;
    }
    proof {
        let s = path@.subrange(0, start as int);
        assert(spec_tail_component(s) =~= Seq::<char>::empty());
        assert(spec_tail_component(path@.subrange(0, end as int)) =~= path@.subrange(
            start as int,
            end as int,
        ));
    }
    if start == end {
        "unknown".to_owned()
    } else {
        let tail = path.substring_char(start, end);
        tail.to_owned()
    }
}

/// The name a repository path is shown under, relative to `root` where the
/// path lies strictly inside it (the text after `root` and its separator),
/// and the bare repository name otherwise.
pub open spec fn spec_repo_display_name(path: Seq<char>, root: Seq<char>) -> Seq<char> {
    if path.len() > root.len() && path.subrange(0, root.len() as int) == root && (root.len() == 0
        || path[root.len() as int] == '/') {
        if root.len() == 0 {
            path
        } else {
            path.subrange(root.len() as int + 1, path.len() as int)
        }
    } else {
        spec_repo_name(path)
    }
}

/// Display a repository path relative to the given root when possible.
pub fn repo_display_name(path: &str, root: &str) -> (r: String)
    ensures
        r@ == spec_repo_display_name(path@, root@),
{
    let n = path.unicode_len();
    let rl = root.unicode_len();
    if n > rl {
        let mut matches_prefix = true;
        let mut i: usize = 0;
        proof {
            assert(path@.subrange(0, 0) =~= root@.subrange(0, 0));
        }
        while i < rl
            invariant
                i <= rl <= n,
                n == path@.len(),
                rl == root@.len(),
                matches_prefix == (path@.subrange(0, i as int) == root@.subrange(0, i as int)),
            decreases rl - i,
        {
            proof {
                assert(path@.subrange(0, i as int).push(path@[i as int]) =~= path@.subrange(
                    0,
                    i as int + 1,
                ));
                assert(root@.subrange(0, i as int).push(root@[i as int]) =~= root@.subrange(
                    0,
                    i as int + 1,
                ));
            }
            if path.get_char(i) != root.get_char(i) {
                matches_prefix = false;
                proof {
                    assert(path@.subrange(0, i as int + 1)[i as int] != root@.subrange(
                        0,
                        i as int + 1,
                    )[i as int]);
                }
            } else {
                proof {
                    if path@.subrange(0, i as int + 1) == root@.subrange(0, i as int + 1) {
                        assert(path@.subrange(0, i as int) =~= root@.subrange(0, i as int));
                    } else {
                        if path@.subrange(0, i as int) == root@.subrange(0, i as int) {
                            assert(path@.subrange(0, i as int + 1) =~= root@.subrange(
                                0,
                                i as int + 1,
                            ));
                        }
                    }
                }
            }
            i = i + 1;
        }
        proof {
            assert(root@.subrange(0, rl as int) =~= root@);
        }
        if matches_prefix && (rl == 0 || path.get_char(rl) == '/') {
            if rl == 0 {
                return path.to_owned();
            }
            let rest = path.substring_char(rl + 1, n);
            return rest.to_owned();
        }
    }
    repo_name(path)
}

/// One directory as the filesystem walk found it: its name, whether it
/// holds a `.git` entry, and its child directories in the order they were
/// read.
pub struct DirEntry {
    /// The directory's own name (one path component).
    pub name: String,
    /// Whether the directory contains a `.git` entry and is so a repository.
    pub has_git: bool,
    /// The subdirectories, in the order the walk read them.
    pub children: Vec<DirEntry>,
}

/// The character views of a sequence of strings.
pub open spec fn spec_views_of(s: Seq<String>) -> Seq<Seq<char>> {
    s.map_values(|t: String| t@)
}

/// How many further levels the scan may enter below the top one; `None`
/// means without limit.
pub open spec fn spec_levels_below(scan_depth: ScanDepth) -> Option<usize> {
    match scan_depth {
        ScanDepth::All => None,
        ScanDepth::Depth(m) => Some(
            if m == 0 {
                0
            } else {
                (m - 1) as usize
            },
        ),
    }
}

/// The repository paths the scan collects from a list of sibling
/// directories under `prefix`, in walk order.
pub open spec fn spec_scan_forest(
    entries: Seq<DirEntry>,
    prefix: Seq<char>,
    remaining: Option<usize>,
) -> Seq<Seq<char>>
    decreases entries,
{
    if entries.len() == 0 {
        Seq::empty()
    } else {
        spec_scan_entry(entries.first(), prefix, remaining) + spec_scan_forest(
            entries.drop_first(),
            prefix,
            remaining,
        )
    }
}

/// The repository paths the scan collects from one directory under
/// `prefix`: a repository is collected and not entered; any other directory
/// is entered while levels remain.
pub open spec fn spec_scan_entry(
    e: DirEntry,
    prefix: Seq<char>,
    remaining: Option<usize>,
) -> Seq<Seq<char>>
    decreases e,
{
    let path = prefix + seq!['/'] + e.name@;
    if e.has_git {
        seq![path]
    } else {
        match remaining {
            None => spec_scan_forest(e.children@, path, None),
            Some(m) => if m > 0 {
                spec_scan_forest(e.children@, path, Some((m - 1) as usize))
            } else {
                Seq::empty()
            },
        }
    }
}

proof fn lemma_scan_forest_snoc(
    s: Seq<DirEntry>,
    e: DirEntry,
    prefix: Seq<char>,
    remaining: Option<usize>,
)
    ensures
        spec_scan_forest(s.push(e), prefix, remaining) =~= spec_scan_forest(s, prefix, remaining)
            + spec_scan_entry(e, prefix, remaining),
    decreases s.len(),
{
    if s.len() == 0 {
        assert(s.push(e).drop_first() =~= Seq::<DirEntry>::empty());
        assert(s.push(e).first() == e);
        assert(spec_scan_forest(s, prefix, remaining) =~= Seq::<Seq<char>>::empty());
        assert(spec_scan_forest(Seq::<DirEntry>::empty(), prefix, remaining)
            =~= Seq::<Seq<char>>::empty());
        assert(spec_scan_forest(s.push(e), prefix, remaining) =~= spec_scan_entry(
            e,
            prefix,
            remaining,
        ) + Seq::<Seq<char>>::empty());
    } else {
        let rest = s.drop_first();
        assert(s.push(e).drop_first() =~= rest.push(e));
        assert(s.push(e).first() == s.first());
        lemma_scan_forest_snoc(rest, e, prefix, remaining);
        assert(spec_scan_forest(s.push(e), prefix, remaining) == spec_scan_entry(
            s.first(),
            prefix,
            remaining,
        ) + spec_scan_forest(rest.push(e), prefix, remaining));
        assert(spec_scan_forest(s, prefix, remaining) == spec_scan_entry(s.first(), prefix, remaining)
            + spec_scan_forest(rest, prefix, remaining));
    }
}

/// Collect into `out` what the scan finds in `entries` under `prefix`.
fn scan_forest(
    entries: &Vec<DirEntry>,
    prefix: &str,
    remaining: Option<usize>,
    out: &mut Vec<String>,
)
    ensures
        spec_views_of(final(out)@) =~= spec_views_of(old(out)@) + spec_scan_forest(
            entries@,
            prefix@,
            remaining,
        ),
    decreases entries@,
{
    let mut i: usize = 0;
    proof {
        assert(entries@.subrange(0, 0) =~= Seq::<DirEntry>::empty());
    }
    while i < entries.len()
        invariant
            i <= entries@.len(),
            spec_views_of(out@) =~= spec_views_of(old(out)@) + spec_scan_forest(
                entries@.subrange(0, i as int),
                prefix@,
                remaining,
            ),
        decreases entries@.len() - i,
    {
        let ghost out_before = out@;
        let e = &entries[i];
        let mut path = String::new();
        path.append(prefix);
        path.append("/");
        path.append(e.name.as_str());
        proof {
            reveal_strlit("/");
            assert(path@ =~= prefix@ + seq!['/'] + e.name@);
        }
        if e.has_git {
            out.push(path);
            proof {
                assert(spec_views_of(out@) =~= spec_views_of(out_before) + spec_scan_entry(
                    entries@[i as int],
                    prefix@,
                    remaining,
                ));
            }
        } else {
            match remaining {
                None => {
                    proof {
                        assert(decreases_to!(entries@ => entries@[i as int]));
                        assert(decreases_to!(entries@[i as int] => entries@[i as int].children));
                    }
                    scan_forest(&e.children, path.as_str(), None, out);
                },
                Some(m) => {
                    if m > 0 {
                        proof {
                            assert(decreases_to!(entries@ => entries@[i as int]));
                            assert(decreases_to!(
                                entries@[i as int] => entries@[i as int].children));
                        }
                        scan_forest(&e.children, path.as_str(), Some(m - 1), out);
                    }
                },
            }
            proof {
                assert(spec_views_of(out@) =~= spec_views_of(out_before) + spec_scan_entry(
                    entries@[i as int],
                    prefix@,
                    remaining,
                ));
            }
        }
        i = i + 1;
        proof {
            assert(entries@.subrange(0, i as int).drop_last() =~= entries@.subrange(
                0,
                i as int - 1,
            ));
            assert(entries@.subrange(0, i as int) =~= entries@.subrange(0, i as int - 1).push(
                entries@[i as int - 1],
            ));
            lemma_scan_forest_snoc(
                entries@.subrange(0, i as int - 1),
                entries@[i as int - 1],
                prefix@,
                remaining,
            );
            assert(spec_views_of(out@) =~= spec_views_of(old(out)@) + spec_scan_forest(
                entries@.subrange(0, i as int),
                prefix@,
                remaining,
            ));
        }
    }
    proof {
        assert(entries@.subrange(0, entries@.len() as int) =~= entries@);
    }
}

/// Lexicographic order on character strings, by code point.
pub open spec fn spec_lex_le(a: Seq<char>, b: Seq<char>) -> bool
    decreases a.len(),
{
    if a.len() == 0 {
        true
    } else if b.len() == 0 {
        false
    } else if (a.first() as int) < (b.first() as int) {
        true
    } else if (a.first() as int) > (b.first() as int) {
        false
    } else {
        spec_lex_le(a.drop_first(), b.drop_first())
    }
}

/// Any two strings are ordered one way or the other.
pub proof fn lemma_lex_le_total(a: Seq<char>, b: Seq<char>)
    ensures
        spec_lex_le(a, b) || spec_lex_le(b, a),
    decreases a.len(),
{
    if a.len() > 0 && b.len() > 0 && a.first() == b.first() {
        lemma_lex_le_total(a.drop_first(), b.drop_first());
    }
}

/// Whether `a` sorts at or before `b`.
fn str_le(a: &String, b: &String) -> (r: bool)
    ensures
        r == spec_lex_le(a@, b@),
{
    let alen = a.as_str().unicode_len();
    let blen = b.as_str().unicode_len();
    let mut i: usize = 0;
    proof {
        assert(a@.subrange(0, alen as int) =~= a@);
        assert(b@.subrange(0, blen as int) =~= b@);
    }
    while i < alen && i < blen
        invariant
            i <= alen,
            i <= blen,
            alen == a@.len(),
            blen == b@.len(),
            spec_lex_le(a@, b@) == spec_lex_le(
                a@.subrange(i as int, alen as int),
                b@.subrange(i as int, blen as int),
            ),
        decreases alen - i,
    {
        let ca = a.as_str().get_char(i);
        let cb = b.as_str().get_char(i);
        proof {
            let sa = a@.subrange(i as int, alen as int);
            let sb = b@.subrange(i as int, blen as int);
            assert(sa.first() == a@[i as int]);
            assert(sb.first() == b@[i as int]);
            assert(sa.drop_first() =~= a@.subrange(i as int + 1, alen as int));
            assert(sb.drop_first() =~= b@.subrange(i as int + 1, blen as int));
        }
        if (ca as u32) < (cb as u32) {
            return true;
        }
        if (ca as u32) > (cb as u32) {
            return false;
        }
        i = i + 1;
    }
    proof {
        let sa = a@.subrange(i as int, alen as int);
        let sb = b@.subrange(i as int, blen as int);
        if i == alen {
            assert(sa.len() == 0);
        } else {
            assert(sb.len() == 0);
            assert(sa.len() > 0);
        }
    }
    i == alen
}

/// Whether each element sorts at or before its successor.
pub open spec fn spec_sorted(s: Seq<Seq<char>>) -> bool {
    forall|i: int| 0 <= i < s.len() - 1 ==> spec_lex_le(#[trigger] s[i], s[i + 1])
}

/// Sort the strings, keeping exactly the same texts.
#[verifier::rlimit(60)]
fn sort_strings(v: &mut Vec<String>)
    ensures
        spec_views_of(final(v)@).to_multiset() =~= spec_views_of(old(v)@).to_multiset(),
        spec_sorted(spec_views_of(final(v)@)),
{
    let ghost v0 = v@;
    let mut out: Vec<String> = Vec::new();
    let mut i: usize = 0;
    while i < v.len()
        invariant
            i <= v@.len(),
            v@ == v0,
            spec_views_of(out@).to_multiset() =~= spec_views_of(v0.subrange(0, i as int))
                .to_multiset(),
            spec_sorted(spec_views_of(out@)),
        decreases v@.len() - i,
    {
        let x = v[i].clone();
        let ghost xv = x@;
        let ghost out_before = out@;
        let mut p: usize = 0;
        while p < out.len() && str_le(&out[p], &x)
            invariant
                p <= out@.len(),
                out@ == out_before,
                x@ == xv,
                forall|j: int| 0 <= j < p ==> spec_lex_le(spec_views_of(out@)[j], xv),
            decreases out@.len() - p,
        {
            p = p + 1;
        }
        proof {
            if p < out@.len() {
                lemma_lex_le_total(spec_views_of(out@)[p as int], xv);
                assert(spec_lex_le(xv, spec_views_of(out@)[p as int]));
            }
        }
        out.insert(p, x);
        proof {
            out_before.insert_ensures(p as int, x);
            assert(spec_views_of(out@) =~= spec_views_of(out_before).insert(p as int, xv));
            assert(spec_views_of(v0.subrange(0, i as int + 1)).drop_last() =~= spec_views_of(
                v0.subrange(0, i as int),
            ));
            assert(spec_views_of(v0.subrange(0, i as int + 1)) =~= spec_views_of(
                v0.subrange(0, i as int),
            ).push(xv));
            assert(spec_views_of(out@).to_multiset() =~= spec_views_of(
                v0.subrange(0, i as int + 1),
            ).to_multiset());
            let sv = spec_views_of(out@);
            let sb = spec_views_of(out_before);
            assert forall|j: int| 0 <= j < sv.len() - 1 implies spec_lex_le(
                #[trigger] sv[j],
                sv[j + 1],
            ) by {
                sb.insert_ensures(p as int, xv);
                if j + 1 < p {
                    assert(sv[j] == sb[j] && sv[j + 1] == sb[j + 1]);
                } else if j + 1 == p {
                    assert(sv[j] == sb[j] && sv[j + 1] == xv);
                } else if j == p {
                    assert(sv[j] == xv && sv[j + 1] == sb[j]);
                } else {
                    assert(sv[j] == sb[j - 1] && sv[j + 1] == sb[j]);
                }
            }
        }
        i = i + 1;
    }
    proof {
        assert(v0.subrange(0, v0.len() as int) =~= v0);
    }
    *v = out;
}

/// Find all git repositories under the given root in a directory tree read
/// by the caller, honouring the scan depth: a repository is collected and
/// not entered, any other directory is entered while the depth allows, and
/// the collected paths are returned sorted.
pub fn find_git_repos_in(root: &str, entries: &Vec<DirEntry>, scan_depth: ScanDepth) -> (r: Vec<
    String,
>)
    ensures
        spec_views_of(r@).to_multiset() =~= spec_scan_forest(
            entries@,
            root@,
            spec_levels_below(scan_depth),
        ).to_multiset(),
        spec_sorted(spec_views_of(r@)),
{
    let remaining = match scan_depth.max_depth() {
        None => None,
        Some(m) => Some(
            if m == 0 {
                0
            } else {
                m - 1
            },
        ),
    };
    let mut out: Vec<String> = Vec::new();
    scan_forest(entries, root, remaining, &mut out);
    proof {
        assert(spec_views_of(out@) =~= spec_scan_forest(
            entries@,
            root@,
            spec_levels_below(scan_depth),
        ));
    }
    sort_strings(&mut out);
    out
}

/// Whether the parser treats `c` as whitespace.
fn is_space(c: char) -> (r: bool)
    ensures
        r == spec_is_space(c),
{
    c == ' ' || c == '\t' || c == '\n' || c == '\r' || c == '\u{b}' || c == '\u{c}'
}

/// The rejection message for text that is not a scan depth.
fn invalid_depth_message(value: &str) -> (r: String)
    ensures
        r@ == "invalid scan depth: "@ + value@ + ". Use a positive integer or \"all\"."@,
{
    let mut s = String::new();
    s.append("invalid scan depth: ");
    s.append(value);
    s.append(". Use a positive integer or \"all\".");
    proof {
        assert(s@ =~= "invalid scan depth: "@ + value@ + ". Use a positive integer or \"all\"."@);
    }
    s
}

} // verus!
