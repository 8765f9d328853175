//! Reading the configuration: lines of the main configuration file, of the
//! storage rules file and of the neighbours file.

use vstd::prelude::*;
use vstd::string::StrSliceExecFns;
use crate::search::{lemma_run_end_at, char_is_whitespace, is_white_space, lemma_run_end, run_end};
use crate::storage::{StorageCondition, StoragePolicy};
use crate::swarm::{GnomeId, SwarmName};
use vstd::utf8::encode_utf8;
use vstd::string::StringSliceAdditionalSpecFns;
use vstd::string::StringExecFns;

verus! {

/// The characters of `s`.
pub fn chars_of(s: &str) -> (r: Vec<char>)
    ensures
        r@ == s@,
{
    let n = s.unicode_len();
    let mut v: Vec<char> = Vec::new();
    let mut i: usize = 0;
    while i < n
        invariant
            i <= n,
            n == s@.len(),
            v@ == s@.take(i as int),
        decreases n - i,
    {
        v.push(s.get_char(i));
        assert(s@.take(i + 1) =~= s@.take(i as int).push(s@[i as int]));
        i += 1;
    }
    assert(s@.take(n as int) =~= s@);
    v
}

/// The `String` of the characters `c[from..to]`.
fn string_of_chars(c: &Vec<char>, from: usize, to: usize) -> (r: String)
    requires
        from <= to <= c@.len(),
    ensures
        r@ == c@.subrange(from as int, to as int),
{
    let s = String::new();
    let mut out = s;
    let mut i = from;
    while i < to
        invariant
            from <= i <= to <= c@.len(),
            out@ == c@.subrange(from as int, i as int),
        decreases to - i,
    {
        out = push_char(out, c[i]);
        assert(c@.subrange(from as int, i + 1) =~= c@.subrange(from as int, i as int).push(c@[i as int]));
        i += 1;
    }
    out
}

/// `String::push`: the string with `ch` appended.
#[verifier::external_body]
fn push_char(s: String, ch: char) -> (r: String)
    ensures
        r@ == s@.push(ch),
{
    let mut s = s;
    s.push(ch);
    s
}

/// A line being read, and how far it has been read.
pub struct CharCursor {
    pub chars: Vec<char>,
    pub pos: usize,
}

/// The first position from `i` on that is not white space, or the end.
pub open spec fn skip_ws(s: Seq<char>, i: int) -> int
    decreases s.len() - i,
{
    if i < 0 || i >= s.len() || !is_white_space(s[i]) {
        i
    } else {
        skip_ws(s, i + 1)
    }
}

proof fn lemma_skip_ws(s: Seq<char>, i: int)
    requires
        0 <= i <= s.len(),
    ensures
        i <= skip_ws(s, i) <= s.len(),
        skip_ws(s, i) < s.len() ==> !is_white_space(s[skip_ws(s, i)]),
        forall|k: int| i <= k < skip_ws(s, i) ==> is_white_space(#[trigger] s[k]),
    decreases s.len() - i,
{
    if i < s.len() && is_white_space(s[i]) {
        lemma_skip_ws(s, i + 1);
    }
}

/// The storage policy named `t`, if any.
pub open spec fn policy_named(t: Seq<char>) -> Option<StoragePolicy> {
    if t == "All"@ {
        Some(StoragePolicy::All)
    } else if t == "Datastore"@ {
        Some(StoragePolicy::Datastore)
    } else if t == "Manifest"@ {
        Some(StoragePolicy::Manifest)
    } else if t == "FirstPages"@ {
        Some(StoragePolicy::FirstPages)
    } else if t == "MatchOrFirstPages"@ {
        Some(StoragePolicy::MatchOrFirstPages)
    } else if t == "MatchOrForget"@ {
        Some(StoragePolicy::MatchOrForget)
    } else if t == "MatchAndManifestOrFirstPages"@ {
        Some(StoragePolicy::MatchAndManifestOrFirstPages)
    } else if t == "MatchAndManifestOrForget"@ {
        Some(StoragePolicy::MatchAndManifestOrForget)
    } else if t == "Forget"@ {
        Some(StoragePolicy::Forget)
    } else {
        None
    }
}

/// Reads the characters `c[from..to]` as one of the names `names`: the
/// index of the name they spell.
fn match_name(c: &Vec<char>, from: usize, to: usize, names: &Vec<&str>) -> (r: Option<usize>)
    requires
        from <= to <= c@.len(),
    ensures
        match r {
            Some(k) => k < names@.len() && names@[k as int]@ == c@.subrange(from as int, to as int)
                && forall|j: int| 0 <= j < k ==> (#[trigger] names@[j])@ != c@.subrange(from as int, to as int),
            None => forall|j: int| 0 <= j < names@.len() ==> (#[trigger] names@[j])@ != c@.subrange(
                from as int,
                to as int,
            ),
        },
{
    let t = string_of_chars(c, from, to);
    let mut k: usize = 0;
    while k < names.len()
        invariant
            k <= names@.len(),
            t@ == c@.subrange(from as int, to as int),
            forall|j: int| 0 <= j < k ==> (#[trigger] names@[j])@ != t@,
        decreases names@.len() - k,
    {
        if crate::app_type::str_eq(t.as_str(), names[k]) {
            return Some(k);
        }
        k += 1;
    }
    None
}

impl CharCursor {
    /// The token that starts the rest of the line: from the first character
    /// that is not white space up to the next white space (or the end).
    pub open spec fn token_at(s: Seq<char>, pos: int) -> (int, int) {
        let j = skip_ws(s, pos);
        (j, run_end(s, j))
    }

    /// Where reading stops after the token ending at `e`: past the white
    /// space that ends it, or at the end.
    pub open spec fn after(s: Seq<char>, e: int) -> int {
        if e < s.len() {
            e + 1
        } else {
            e
        }
    }
}

/// Reads a storage policy's name: skips white space, then reads up to the
/// next white space (which is consumed) or the end of the line; `None` when
/// nothing is left or the name is no policy's.
pub fn read_policy(chars: &mut CharCursor) -> (r: Option<StoragePolicy>)
    requires
        old(chars).pos <= old(chars).chars@.len(),
    ensures
        final(chars).chars@ == old(chars).chars@,
        ({
            let s = old(chars).chars@;
            let (j, e) = CharCursor::token_at(s, old(chars).pos as int);
            &&& j == s.len() ==> r is None && final(chars).pos == s.len()
            &&& j < s.len() ==> r == policy_named(s.subrange(j, e)) && final(chars).pos == CharCursor::after(s, e)
            &&& r == policy_at(s, old(chars).pos as int)
        }),
{
    let ghost s = chars.chars@;
    let n = chars.chars.len();
    proof {
        lemma_skip_ws(s, chars.pos as int);
    }
    let mut j = chars.pos;
    while j < n && char_is_whitespace(chars.chars[j])
        invariant
            chars.pos <= j <= n,
            n == s.len(),
            s == chars.chars@,
            skip_ws(s, chars.pos as int) == skip_ws(s, j as int),
        decreases n - j,
    {
        j += 1;
    }
    if j >= n {
        assert(skip_ws(s, j as int) == j);
        chars.pos = n;
        return None;
    }
    assert(skip_ws(s, j as int) == j);
    proof {
        lemma_run_end(s, j as int);
    }
    let mut e = j + 1;
    while e < n && !char_is_whitespace(chars.chars[e])
        invariant
            j < e <= n,
            n == s.len(),
            s == chars.chars@,
            run_end(s, j as int) == run_end(s, e as int),
        decreases n - e,
    {
        e += 1;
    }
    assert(run_end(s, e as int) == e);
    chars.pos = if e < n { e + 1 } else { e };
    let mut names: Vec<&str> = Vec::new();
    names.push("All");
    names.push("Datastore");
    names.push("Manifest");
    names.push("FirstPages");
    names.push("MatchOrFirstPages");
    names.push("MatchOrForget");
    names.push("MatchAndManifestOrFirstPages");
    names.push("MatchAndManifestOrForget");
    names.push("Forget");
    let found = match_name(&chars.chars, j, e, &names);
    proof {
        reveal_strlit("All");
        reveal_strlit("Datastore");
        reveal_strlit("Manifest");
        reveal_strlit("FirstPages");
        reveal_strlit("MatchOrFirstPages");
        reveal_strlit("MatchOrForget");
        reveal_strlit("MatchAndManifestOrFirstPages");
        reveal_strlit("MatchAndManifestOrForget");
        reveal_strlit("Forget");
    }
    let ghost t = s.subrange(j as int, e as int);
    match found {
        Some(k) => {
            proof {
                assert(names@[0]@ == "All"@);
                assert(names@[1]@ == "Datastore"@);
                assert(names@[2]@ == "Manifest"@);
                assert(names@[3]@ == "FirstPages"@);
                assert(names@[4]@ == "MatchOrFirstPages"@);
                assert(names@[5]@ == "MatchOrForget"@);
                assert(names@[6]@ == "MatchAndManifestOrFirstPages"@);
                assert(names@[7]@ == "MatchAndManifestOrForget"@);
                assert(names@[8]@ == "Forget"@);
                assert(names@[k as int]@ == t);
            }
            Some(StoragePolicy::get(k))
        },
        None => {
            proof {
                assert(names@[0]@ == "All"@ && names@[0]@ != t);
                assert(names@[1]@ == "Datastore"@ && names@[1]@ != t);
                assert(names@[2]@ == "Manifest"@ && names@[2]@ != t);
                assert(names@[3]@ == "FirstPages"@ && names@[3]@ != t);
                assert(names@[4]@ == "MatchOrFirstPages"@ && names@[4]@ != t);
                assert(names@[5]@ == "MatchOrForget"@ && names@[5]@ != t);
                assert(names@[6]@ == "MatchAndManifestOrFirstPages"@ && names@[6]@ != t);
                assert(names@[7]@ == "MatchAndManifestOrForget"@ && names@[7]@ != t);
                assert(names@[8]@ == "Forget"@ && names@[8]@ != t);
            }
            None
        },
    }
}

/// What `read_policy` reads from position `pos` of `s`.
pub open spec fn policy_at(s: Seq<char>, pos: int) -> Option<StoragePolicy> {
    let (j, e) = CharCursor::token_at(s, pos);
    if j >= s.len() {
        None
    } else {
        policy_named(s.subrange(j, e))
    }
}

/// The first position from `i` on that holds `d`, or the end.
pub open spec fn find_char(s: Seq<char>, i: int, d: char) -> int
    decreases s.len() - i,
{
    if i < 0 || i >= s.len() || s[i] == d {
        i
    } else {
        find_char(s, i + 1, d)
    }
}

proof fn lemma_find_char(s: Seq<char>, i: int, d: char)
    requires
        0 <= i <= s.len(),
    ensures
        i <= find_char(s, i, d) <= s.len(),
        find_char(s, i, d) < s.len() ==> s[find_char(s, i, d)] == d,
        forall|k: int| i <= k < find_char(s, i, d) ==> #[trigger] s[k] != d,
    decreases s.len() - i,
{
    if i < s.len() && s[i] != d {
        lemma_find_char(s, i + 1, d);
    }
}

/// Reading a gnome id from position `pos` of `s` comes to an end: a token
/// is left, and white space follows it.
pub open spec fn gnome_id_readable(s: Seq<char>, pos: int) -> bool {
    let (j, e) = CharCursor::token_at(s, pos);
    j < s.len() && e < s.len()
}

/// Reads the token that names a gnome: skips white space, reads up to the
/// next white space (consumed), and reads the id from the token with
/// `parse_gid` (the swarm's reading of a gnome id from text).
pub fn read_gnome_id<G: Fn(String) -> Option<GnomeId>>(chars: &mut CharCursor, parse_gid: &G) -> (r: Option<GnomeId>)
    requires
        old(chars).pos <= old(chars).chars@.len(),
        gnome_id_readable(old(chars).chars@, old(chars).pos as int),
        forall|t: String| #[trigger] call_requires(*parse_gid, (t,)),
    ensures
        final(chars).chars@ == old(chars).chars@,
        ({
            let s = old(chars).chars@;
            let (j, e) = CharCursor::token_at(s, old(chars).pos as int);
            &&& final(chars).pos == e + 1
            &&& exists|t: String| t@ == s.subrange(j, e) && #[trigger] call_ensures(*parse_gid, (t,), r)
        }),
{
    let ghost s = chars.chars@;
    let n = chars.chars.len();
    proof {
        lemma_skip_ws(s, chars.pos as int);
    }
    let mut j = chars.pos;
    while j < n && char_is_whitespace(chars.chars[j])
        invariant
            chars.pos <= j <= n,
            n == s.len(),
            s == chars.chars@,
            skip_ws(s, chars.pos as int) == skip_ws(s, j as int),
        decreases n - j,
    {
        j += 1;
    }
    assert(j < n);
    assert(skip_ws(s, j as int) == j);
    proof {
        lemma_run_end(s, j as int);
    }
    let mut e = j + 1;
    while e < n && !char_is_whitespace(chars.chars[e])
        invariant
            j < e <= n,
            n == s.len(),
            s == chars.chars@,
            run_end(s, j as int) == run_end(s, e as int),
        decreases n - e,
    {
        e += 1;
    }
    assert(run_end(s, e as int) == e);
    chars.pos = e + 1;
    let tok = string_of_chars(&chars.chars, j, e);
    parse_gid(tok)
}

/// Reading a swarm name from position `pos` of `s` comes to an end: a
/// character is left to open the name, and the same character closes it.
pub open spec fn swarm_name_readable(s: Seq<char>, pos: int) -> bool {
    let j = skip_ws(s, pos);
    j < s.len() && find_char(s, j + 1, s[j]) < s.len()
}

/// The name `read_swarm_name` reads from position `pos` of `s`, and where
/// it stops: the characters between the first character that is not white
/// space and its next occurrence.
pub open spec fn swarm_name_at(s: Seq<char>, pos: int) -> (Seq<char>, int) {
    let j = skip_ws(s, pos);
    let k = find_char(s, j + 1, s[j]);
    (s.subrange(j + 1, k), k + 1)
}

/// Reads a swarm's name: the first character that is not white space
/// opens it, its next occurrence closes it; a name of more than 32 bytes of
/// UTF-8 is refused.
pub fn read_swarm_name(chars: &mut CharCursor) -> (r: Option<String>)
    requires
        old(chars).pos <= old(chars).chars@.len(),
        swarm_name_readable(old(chars).chars@, old(chars).pos as int),
    ensures
        final(chars).chars@ == old(chars).chars@,
        ({
            let (name, next) = swarm_name_at(old(chars).chars@, old(chars).pos as int);
            &&& final(chars).pos == next
            &&& encode_utf8(name).len() <= 32 ==> (r matches Some(t) && t@ == name)
            &&& encode_utf8(name).len() > 32 ==> r is None
        }),
{
    let ghost s = chars.chars@;
    let n = chars.chars.len();
    proof {
        lemma_skip_ws(s, chars.pos as int);
    }
    let mut j = chars.pos;
    while j < n && char_is_whitespace(chars.chars[j])
        invariant
            chars.pos <= j <= n,
            n == s.len(),
            s == chars.chars@,
            skip_ws(s, chars.pos as int) == skip_ws(s, j as int),
        decreases n - j,
    {
        j += 1;
    }
    assert(j < n);
    assert(skip_ws(s, j as int) == j);
    let delimiter = chars.chars[j];
    proof {
        lemma_find_char(s, j + 1, delimiter);
    }
    let mut k = j + 1;
    while k < n && chars.chars[k] != delimiter
        invariant
            j < k <= n,
            n == s.len(),
            s == chars.chars@,
            find_char(s, j + 1, delimiter) == find_char(s, k as int, delimiter),
        decreases n - k,
    {
        k += 1;
    }
    assert(find_char(s, k as int, delimiter) == k);
    chars.pos = k + 1;
    let name = string_of_chars(&chars.chars, j + 1, k);
    if name.as_str().as_bytes().len() <= 32 {
        Some(name)
    } else {
        None
    }
}

/// The characters of `s` without white space at either end.
pub open spec fn trim(s: Seq<char>) -> Seq<char> {
    let a = skip_ws(s, 0);
    let b = rtrim(s, s.len() as int);
    if a >= b {
        Seq::empty()
    } else {
        s.subrange(a, b)
    }
}

/// The end of `s[..b]` without white space at its end.
pub open spec fn rtrim(s: Seq<char>, b: int) -> int
    decreases b,
{
    if b <= 0 || b > s.len() || !is_white_space(s[b - 1]) {
        b
    } else {
        rtrim(s, b - 1)
    }
}

proof fn lemma_rtrim(s: Seq<char>, b: int)
    requires
        0 <= b <= s.len(),
    ensures
        0 <= rtrim(s, b) <= b,
        rtrim(s, b) > 0 ==> !is_white_space(s[rtrim(s, b) - 1]),
        forall|k: int| rtrim(s, b) <= k < b ==> is_white_space(#[trigger] s[k]),
    decreases b,
{
    if b > 0 && is_white_space(s[b - 1]) {
        lemma_rtrim(s, b - 1);
    }
}

/// The characters of `s` without white space at either end, as `trim` gives them.
fn trimmed(s: &Vec<char>) -> (r: Vec<char>)
    ensures
        r@ == trim(s@),
{
    let n = s.len();
    proof {
        lemma_skip_ws(s@, 0);
        lemma_rtrim(s@, n as int);
    }
    let mut a: usize = 0;
    while a < n && char_is_whitespace(s[a])
        invariant
            a <= n,
            n == s@.len(),
            skip_ws(s@, 0) == skip_ws(s@, a as int),
        decreases n - a,
    {
        a += 1;
    }
    assert(skip_ws(s@, a as int) == a);
    let mut b: usize = n;
    while b > 0 && char_is_whitespace(s[b - 1])
        invariant
            b <= n,
            n == s@.len(),
            rtrim(s@, n as int) == rtrim(s@, b as int),
        decreases b,
    {
        b -= 1;
    }
    assert(rtrim(s@, b as int) == b);
    let mut r: Vec<char> = Vec::new();
    if a < b {
        let mut i = a;
        while i < b
            invariant
                a <= i <= b <= n,
                n == s@.len(),
                r@ == s@.subrange(a as int, i as int),
            decreases b - i,
        {
            r.push(s[i]);
            assert(s@.subrange(a as int, i + 1) =~= s@.subrange(a as int, i as int).push(s@[i as int]));
            i += 1;
        }
    }
    r
}

/// The condition word that starts a trimmed rule line, and where reading
/// goes on after it.
pub open spec fn cond_at(t: Seq<char>) -> (Seq<char>, int) {
    let e = run_end(t, 0);
    (t.subrange(0, e), CharCursor::after(t, e))
}

/// A storage rule line is read to its end: after a `FounderIs` or a
/// `SwarmName` condition a gnome id can be read, and after the id of a
/// `SwarmName` condition a swarm name.
pub open spec fn rule_readable(line: Seq<char>) -> bool {
    let t = trim(line);
    let (cond, p1) = cond_at(t);
    &&& (cond == "FounderIs"@ || cond == "SwarmName"@) ==> gnome_id_readable(t, p1)
    &&& cond == "SwarmName"@ ==> swarm_name_readable(t, CharCursor::token_at(t, p1).1 + 1)
}

/// The rule line holds a condition with a gnome id (`FounderIs` or
/// `SwarmName`).
pub open spec fn needs_gid(line: Seq<char>) -> bool {
    let (cond, p1) = cond_at(trim(line));
    !(line.len() == 0 || line[0] == '#') && (cond == "FounderIs"@ || cond == "SwarmName"@)
}

/// The token of a rule line that names a gnome.
pub open spec fn gid_token(line: Seq<char>) -> Seq<char> {
    let t = trim(line);
    let (j, e) = CharCursor::token_at(t, cond_at(t).1);
    t.subrange(j, e)
}

/// `r` is the rule a storage rule line gives, when the gnome id in it reads
/// as `gid`: none for an empty line or a comment (starting with `#`); for a
/// known condition word, that condition with the policy read after it (and
/// after the gnome id and the name it may hold), none when any of them
/// cannot be read or the name is over 32 bytes.
pub open spec fn rule_is(r: Option<(StorageCondition, StoragePolicy)>, line: Seq<char>, gid: Option<GnomeId>) -> bool {
    let t = trim(line);
    let (cond, p1) = cond_at(t);
    if line.len() == 0 || line[0] == '#' {
        r is None
    } else if cond == "FounderIs"@ {
        let p2 = CharCursor::token_at(t, p1).1 + 1;
        match (gid, policy_at(t, p2)) {
            (Some(g), Some(p)) => r == Some((StorageCondition::FounderIs(g), p)),
            _ => r is None,
        }
    } else if cond == "SwarmName"@ {
        let p2 = CharCursor::token_at(t, p1).1 + 1;
        let (name, p3) = swarm_name_at(t, p2);
        match (gid, policy_at(t, p3)) {
            (Some(g), Some(p)) => if encode_utf8(name).len() <= 32 {
                r matches Some((StorageCondition::SwarmName(sn), q)) && sn.founder == g && sn.name@ == name && q == p
            } else {
                r is None
            },
            _ => r is None,
        }
    } else {
        let c = if cond == "IamFounder"@ {
            Some(StorageCondition::IamFounder)
        } else if cond == "CatalogApp"@ {
            Some(StorageCondition::CatalogApp)
        } else if cond == "ForumApp"@ {
            Some(StorageCondition::ForumApp)
        } else if cond == "SearchMatch"@ {
            Some(StorageCondition::SearchMatch)
        } else if cond == "Default"@ {
            Some(StorageCondition::Default)
        } else {
            None
        };
        match (c, policy_at(t, p1)) {
            (Some(c), Some(p)) => r == Some((c, p)),
            _ => r is None,
        }
    }
}

/// The word that names a storage condition holding no gnome id (empty
/// for the others).
pub open spec fn condition_word(c: StorageCondition) -> Seq<char> {
    match c {
        StorageCondition::IamFounder => "IamFounder"@,
        StorageCondition::CatalogApp => "CatalogApp"@,
        StorageCondition::ForumApp => "ForumApp"@,
        StorageCondition::SearchMatch => "SearchMatch"@,
        StorageCondition::Default => "Default"@,
        _ => Seq::empty(),
    }
}

/// `w` holds characters and no white space.
pub open spec fn plain_word(w: Seq<char>) -> bool {
    w.len() > 0 && forall|i: int| 0 <= i < w.len() ==> !is_white_space(#[trigger] w[i])
}

/// A line of two plain words separated by one space reads as the first
/// word and then the second.
proof fn lemma_two_words(c: Seq<char>, p: Seq<char>)
    requires
        plain_word(c),
        plain_word(p),
    ensures
        ({
            let line = c + seq![' '] + p;
            &&& trim(line) == line
            &&& cond_at(line) == (c, c.len() + 1int)
            &&& CharCursor::token_at(line, c.len() + 1int) == (c.len() + 1int, line.len() as int)
            &&& line.subrange(c.len() + 1int, line.len() as int) == p
        }),
{
    let line = c + seq![' '] + p;
    let n = line.len() as int;
    assert(line[0] == c[0]);
    assert(skip_ws(line, 0) == 0);
    assert(line[n - 1] == p[p.len() - 1]);
    assert(rtrim(line, n) == n);
    assert(line.subrange(0, n) =~= line);
    assert(is_white_space(line[c.len() as int])) by {
        assert(line[c.len() as int] == ' ');
    }
    assert forall|k: int| 0 <= k < c.len() implies !is_white_space(#[trigger] line[k]) by {
        assert(line[k] == c[k]);
    }
    lemma_run_end_at(line, 0, c.len() as int);
    assert(line.subrange(0, c.len() as int) =~= c);
    let j: int = c.len() + 1int;
    assert(line[j] == p[0]);
    assert(skip_ws(line, j) == j);
    assert forall|k: int| j <= k < n implies !is_white_space(#[trigger] line[k]) by {
        assert(line[k] == p[k - j]);
    }
    lemma_run_end_at(line, j, n);
    assert(line.subrange(j, n) =~= p);
}

/// A storage rule written as the word of its condition (one holding no
/// gnome id), a space and the name of its policy reads back as that rule.
pub proof fn lemma_rule_line_reads(c: StorageCondition, pol: StoragePolicy)
    requires
        c is IamFounder || c is CatalogApp || c is ForumApp || c is SearchMatch || c is Default,
    ensures
        rule_is(Some((c, pol)), condition_word(c) + seq![' '] + pol.name(), None),
        !needs_gid(condition_word(c) + seq![' '] + pol.name()),
{
    reveal_strlit("IamFounder");
    reveal_strlit("CatalogApp");
    reveal_strlit("ForumApp");
    reveal_strlit("SearchMatch");
    reveal_strlit("Default");
    reveal_strlit("FounderIs");
    reveal_strlit("SwarmName");
    reveal_strlit("All");
    reveal_strlit("Datastore");
    reveal_strlit("Manifest");
    reveal_strlit("FirstPages");
    reveal_strlit("MatchOrFirstPages");
    reveal_strlit("MatchOrForget");
    reveal_strlit("MatchAndManifestOrFirstPages");
    reveal_strlit("MatchAndManifestOrForget");
    reveal_strlit("Forget");
    let w = condition_word(c);
    let p = pol.name();
    assert(plain_word(w));
    assert(plain_word(p));
    lemma_two_words(w, p);
    let line = w + seq![' '] + p;
    assert(line[0] == w[0]);
    assert(w != "FounderIs"@ && w != "SwarmName"@);
    assert(policy_named(p) == Some(pol));
    assert(policy_at(line, w.len() + 1int) == Some(pol));
}

/// Reads a line of the storage rules file (see `rule_is`); the gnome ids in
/// it are read by `parse_gid`.
pub fn parse_for_storage_rule<G: Fn(String) -> Option<GnomeId>>(line: String, parse_gid: &G) -> (r: Option<(StorageCondition, StoragePolicy)>)
    requires
        rule_readable(line@),
        forall|t: String| #[trigger] call_requires(*parse_gid, (t,)),
    ensures
        needs_gid(line@) ==> exists|t: String, go: Option<GnomeId>| t@ == gid_token(line@) && #[trigger] call_ensures(*parse_gid, (t,), go)
            && rule_is(r, line@, go),
        !needs_gid(line@) ==> rule_is(r, line@, None),
{
    let s = chars_of(line.as_str());
    if s.len() == 0 || s[0] == '#' {
        return None;
    }
    let t = trimmed(&s);
    let ghost tv = t@;
    let n = t.len();
    proof {
        lemma_run_end(tv, 0);
    }
    let mut e: usize = 0;
    while e < n && !char_is_whitespace(t[e])
        invariant
            e <= n,
            n == tv.len(),
            tv == t@,
            run_end(tv, 0) == run_end(tv, e as int),
        decreases n - e,
    {
        e += 1;
    }
    assert(run_end(tv, e as int) == e);
    let mut names: Vec<&str> = Vec::new();
    names.push("IamFounder");
    names.push("FounderIs");
    names.push("SwarmName");
    names.push("CatalogApp");
    names.push("ForumApp");
    names.push("SearchMatch");
    names.push("Default");
    let found = match_name(&t, 0, e, &names);
    let pos = if e < n { e + 1 } else { e };
    let mut cur = CharCursor { chars: t, pos };
    let ghost cond = tv.subrange(0, e as int);
    proof {
        reveal_strlit("IamFounder");
        reveal_strlit("FounderIs");
        reveal_strlit("SwarmName");
        reveal_strlit("CatalogApp");
        reveal_strlit("ForumApp");
        reveal_strlit("SearchMatch");
        reveal_strlit("Default");
        assert(names@[0]@ == "IamFounder"@);
        assert(names@[1]@ == "FounderIs"@);
        assert(names@[2]@ == "SwarmName"@);
        assert(names@[3]@ == "CatalogApp"@);
        assert(names@[4]@ == "ForumApp"@);
        assert(names@[5]@ == "SearchMatch"@);
        assert(names@[6]@ == "Default"@);
        assert("IamFounder"@[0] == 'I' && "FounderIs"@[0] == 'F' && "SwarmName"@[0] == 'S');
        assert("CatalogApp"@[0] == 'C' && "ForumApp"@[0] == 'F' && "SearchMatch"@[0] == 'S');
        assert("Default"@[0] == 'D');
        assert("FounderIs"@[2] == 'u' && "ForumApp"@[2] == 'r');
        assert("SwarmName"@[1] == 'w' && "SearchMatch"@[1] == 'e');
        assert(trim(line@) == tv);
        assert(cond_at(tv) == (cond, pos as int));
    }
    match found {
        Some(1) => {
            let g = read_gnome_id(&mut cur, parse_gid);
            let res = match g {
                Some(g_id) => {
                    match read_policy(&mut cur) {
                        Some(pol) => Some((StorageCondition::FounderIs(g_id), pol)),
                        None => None,
                    }
                },
                None => None,
            };
            proof {
                assert(needs_gid(line@));
                assert(rule_is(res, line@, g));
                let tk = choose|tk: String| tk@ == gid_token(line@) && #[trigger] call_ensures(*parse_gid, (tk,), g);
                assert(call_ensures(*parse_gid, (tk,), g) && rule_is(res, line@, g));
            }
            res
        },
        Some(2) => {
            let g = read_gnome_id(&mut cur, parse_gid);
            let res = match g {
                Some(g_id) => {
                    match read_swarm_name(&mut cur) {
                        Some(name) => {
                            match read_policy(&mut cur) {
                                Some(pol) => Some((StorageCondition::SwarmName(SwarmName { founder: g_id, name }), pol)),
                                None => None,
                            }
                        },
                        None => {
                            None
                        },
                    }
                },
                None => None,
            };
            proof {
                assert(needs_gid(line@));
                assert(rule_is(res, line@, g));
                let tk = choose|tk: String| tk@ == gid_token(line@) && #[trigger] call_ensures(*parse_gid, (tk,), g);
                assert(call_ensures(*parse_gid, (tk,), g) && rule_is(res, line@, g));
            }
            res
        },
        Some(k) => {
            let c = if k == 0 {
                StorageCondition::IamFounder
            } else if k == 3 {
                StorageCondition::CatalogApp
            } else if k == 4 {
                StorageCondition::ForumApp
            } else if k == 5 {
                StorageCondition::SearchMatch
            } else {
                StorageCondition::Default
            };
            let ghost p0 = cur.pos;
            proof {
                lemma_skip_ws(tv, p0 as int);
            }
            let res = match read_policy(&mut cur) {
                Some(pol) => Some((c, pol)),
                None => None,
            };
            proof {
                assert(policy_at(tv, p0 as int) is None ==> res is None);
                assert(!needs_gid(line@));
                assert(rule_is(res, line@, None));
            }
            res
        },
        None => {
            proof {
                assert(cond != "IamFounder"@);
                assert(rule_is(None, line@, None));
            }
            None
        },
    }
}

/// The digits of a numeral `s`: without a leading `+`.
pub open spec fn digits_of(s: Seq<char>) -> Seq<char> {
    if s.len() > 0 && s[0] == '+' {
        s.skip(1)
    } else {
        s
    }
}

/// Every character of `d` is a decimal digit.
pub open spec fn all_digits(d: Seq<char>) -> bool {
    forall|i: int| 0 <= i < d.len() ==> '0' <= #[trigger] d[i] <= '9'
}

/// The value of the decimal numeral `s`: an optional `+` followed by one
/// or more digits.
pub open spec fn decimal(s: Seq<char>) -> Option<int> {
    let d = digits_of(s);
    if d.len() > 0 && all_digits(d) {
        Some(digits_value(d))
    } else {
        None
    }
}

/// The value of a string of decimal digits.
pub open spec fn digits_value(d: Seq<char>) -> int
    decreases d.len(),
{
    if d.len() == 0 {
        0
    } else {
        10 * digits_value(d.drop_last()) + (d.last() as int - '0' as int)
    }
}

/// A decimal numeral's value is not negative.
pub proof fn lemma_decimal_nonneg(s: Seq<char>)
    ensures
        decimal(s) matches Some(v) ==> v >= 0,
{
    lemma_digits_nonneg(digits_of(s));
}

proof fn lemma_digits_nonneg(d: Seq<char>)
    ensures
        all_digits(d) ==> digits_value(d) >= 0,
    decreases d.len(),
{
    if d.len() > 0 {
        lemma_digits_nonneg(d.drop_last());
        if all_digits(d) {
            assert forall|i: int| 0 <= i < d.drop_last().len() implies '0' <= #[trigger] d.drop_last()[i] <= '9' by {
                assert(d.drop_last()[i] == d[i]);
            }
            assert('0' <= d[d.len() - 1] <= '9');
        }
    }
}

/// `u8::from_str_radix(s, 10)`: the value of the decimal numeral `s` when
/// it fits a `u8`.
#[verifier::external_body]
fn parse_u8(s: &str) -> (r: Option<u8>)
    ensures
        r == match decimal(s@) {
            Some(v) => if v <= u8::MAX { Some(v as u8) } else { None },
            None => None,
        },
{
    u8::from_str_radix(s, 10).ok()
}

/// `u16::from_str_radix(s, 10)`: the value of the decimal numeral `s` when
/// it fits a `u16`.
#[verifier::external_body]
fn parse_u16(s: &str) -> (r: Option<u16>)
    ensures
        r == match decimal(s@) {
            Some(v) => if v <= u16::MAX { Some(v as u16) } else { None },
            None => None,
        },
{
    u16::from_str_radix(s, 10).ok()
}

/// `u64::from_str_radix(s, 10)`: the value of the decimal numeral `s` when
/// it fits a `u64`.
#[verifier::external_body]
fn parse_u64(s: &str) -> (r: Option<u64>)
    ensures
        r == match decimal(s@) {
            Some(v) => if v <= u64::MAX { Some(v as u64) } else { None },
            None => None,
        },
{
    u64::from_str_radix(s, 10).ok()
}

/// The words of `line` as strings.
fn split_words(line: &str) -> (r: Vec<String>)
    ensures
        crate::search::views(r@) == crate::search::words(line@),
{
    let n = line.unicode_len();
    let ghost s = line@;
    let mut out: Vec<String> = Vec::new();
    let mut i: usize = 0;
    loop
        invariant
            i <= n,
            n == s.len(),
            s == line@,
            crate::search::words(s) == crate::search::views(out@) + crate::search::words_from(s, i as int),
        ensures
            crate::search::views(out@) == crate::search::words(s),
        decreases n - i,
    {
        match crate::search::next_word(line, n, i) {
            None => {
                assert(crate::search::views(out@) + crate::search::words_from(s, i as int) =~= crate::search::views(out@));
                break;
            },
            Some((start, end)) => {
                let w = line.substring_char(start, end);
                let ghost before = crate::search::views(out@);
                out.push(String::from_str(w));
                assert(crate::search::views(out@) =~= before.push(w@));
                assert(before + crate::search::words_from(s, i as int) =~= before.push(w@) + crate::search::words_from(s, end as int));
                i = end;
            },
        }
    }
    out
}

/// The settings of the main configuration file, before any path is made
/// of the directories.
#[derive(Debug)]
pub struct ConfSettings {
    pub autosave: bool,
    pub listen_port: Option<u16>,
    pub listen_port_ipv6: Option<u16>,
    pub max_connected_swarms: u8,
    pub upload_bandwidth: u64,
    pub storage_dir: Option<String>,
    pub search_dir: Option<String>,
}

impl ConfSettings {
    /// The settings when nothing is configured.
    pub fn defaults() -> (r: Self)
        ensures
            !r.autosave,
            r.listen_port is None,
            r.listen_port_ipv6 is None,
            r.max_connected_swarms == 8,
            r.upload_bandwidth == 8192,
            r.storage_dir is None,
            r.search_dir is None,
    {
        ConfSettings {
            autosave: false,
            listen_port: None,
            listen_port_ipv6: None,
            max_connected_swarms: 8,
            upload_bandwidth: 8192,
            storage_dir: None,
            search_dir: None,
        }
    }
}

/// A line of the configuration file that is read: not empty and not a
/// comment (starting with `#`).
pub open spec fn conf_line_read(line: Seq<char>) -> bool {
    !(line.len() == 0 || line[0] == '#')
}

/// Applies one line of the configuration file: a header word, then its
/// value. `AUTOSAVE` turns autosaving on; `LISTEN_PORT`,
/// `LISTEN_PORT_IPV6`, `MAX_CONNECTED_SWARMS` and
/// `MAX_UPLOAD_BYTES_PER_SECOND` take a decimal number (a value that does
/// not read as one changes nothing); `STORAGE_DIR` and `SEARCH_DIR` take a
/// word. Empty lines, comments and other headers change nothing.
pub fn apply_conf_line(settings: &mut ConfSettings, line: &str)
    requires
        conf_line_read(line@) ==> crate::search::words(line@).len() > 0,
    ensures
        ({
            let w = crate::search::words(line@);
            let o = *old(settings);
            let n = *final(settings);
            let head = if w.len() > 0 { w[0] } else { Seq::empty() };
            let val = if w.len() > 1 { Some(w[1]) } else { None };
            if !conf_line_read(line@) {
                n == o
            } else if head == "AUTOSAVE"@ {
                n == ConfSettings { autosave: true, ..o }
            } else if head == "LISTEN_PORT"@ {
                n == ConfSettings {
                    listen_port: match val {
                        Some(v) => match decimal(v) {
                            Some(x) => if x <= u16::MAX { Some(x as u16) } else { o.listen_port },
                            None => o.listen_port,
                        },
                        None => o.listen_port,
                    },
                    ..o
                }
            } else if head == "LISTEN_PORT_IPV6"@ {
                n == ConfSettings {
                    listen_port_ipv6: match val {
                        Some(v) => match decimal(v) {
                            Some(x) => if x <= u16::MAX { Some(x as u16) } else { o.listen_port_ipv6 },
                            None => o.listen_port_ipv6,
                        },
                        None => o.listen_port_ipv6,
                    },
                    ..o
                }
            } else if head == "MAX_CONNECTED_SWARMS"@ {
                n == ConfSettings {
                    max_connected_swarms: match val {
                        Some(v) => match decimal(v) {
                            Some(x) => if x <= u8::MAX { x as u8 } else { o.max_connected_swarms },
                            None => o.max_connected_swarms,
                        },
                        None => o.max_connected_swarms,
                    },
                    ..o
                }
            } else if head == "MAX_UPLOAD_BYTES_PER_SECOND"@ {
                n == ConfSettings {
                    upload_bandwidth: match val {
                        Some(v) => match decimal(v) {
                            Some(x) => if x <= u64::MAX { x as u64 } else { o.upload_bandwidth },
                            None => o.upload_bandwidth,
                        },
                        None => o.upload_bandwidth,
                    },
                    ..o
                }
            } else if head == "STORAGE_DIR"@ {
                &&& n.autosave == o.autosave && n.listen_port == o.listen_port && n.listen_port_ipv6
                    == o.listen_port_ipv6 && n.max_connected_swarms == o.max_connected_swarms
                    && n.upload_bandwidth == o.upload_bandwidth && n.search_dir == o.search_dir
                &&& match val {
                    Some(v) => n.storage_dir matches Some(d) && d@ == v,
                    None => n.storage_dir == o.storage_dir,
                }
            } else if head == "SEARCH_DIR"@ {
                &&& n.autosave == o.autosave && n.listen_port == o.listen_port && n.listen_port_ipv6
                    == o.listen_port_ipv6 && n.max_connected_swarms == o.max_connected_swarms
                    && n.upload_bandwidth == o.upload_bandwidth && n.storage_dir == o.storage_dir
                &&& match val {
                    Some(v) => n.search_dir matches Some(d) && d@ == v,
                    None => n.search_dir == o.search_dir,
                }
            } else {
                n == o
            }
        }),
{
    let cs = chars_of(line);
    if cs.len() == 0 || cs[0] == '#' {
        return;
    }
    let words = split_words(line);
    let ghost w = crate::search::words(line@);
    assert(words@.len() > 0);
    assert(words@[0]@ == w[0]);
    if words.len() > 1 {
        assert(words@[1]@ == w[1]);
    }
    let head = words[0].as_str();
    proof {
        reveal_strlit("AUTOSAVE");
        reveal_strlit("LISTEN_PORT");
        reveal_strlit("LISTEN_PORT_IPV6");
        reveal_strlit("MAX_CONNECTED_SWARMS");
        reveal_strlit("MAX_UPLOAD_BYTES_PER_SECOND");
        reveal_strlit("STORAGE_DIR");
        reveal_strlit("SEARCH_DIR");
    }
    if crate::app_type::str_eq(head, "AUTOSAVE") {
        settings.autosave = true;
    } else if crate::app_type::str_eq(head, "LISTEN_PORT") {
        if words.len() > 1 {
            if let Some(number) = parse_u16(words[1].as_str()) {
                settings.listen_port = Some(number);
            }
        }
    } else if crate::app_type::str_eq(head, "LISTEN_PORT_IPV6") {
        if words.len() > 1 {
            if let Some(number) = parse_u16(words[1].as_str()) {
                settings.listen_port_ipv6 = Some(number);
            }
        }
    } else if crate::app_type::str_eq(head, "MAX_CONNECTED_SWARMS") {
        if words.len() > 1 {
            if let Some(number) = parse_u8(words[1].as_str()) {
                settings.max_connected_swarms = number;
            }
        }
    } else if crate::app_type::str_eq(head, "MAX_UPLOAD_BYTES_PER_SECOND") {
        if words.len() > 1 {
            if let Some(number) = parse_u64(words[1].as_str()) {
                settings.upload_bandwidth = number;
            }
        }
    } else if crate::app_type::str_eq(head, "STORAGE_DIR") {
        if words.len() > 1 {
            settings.storage_dir = Some(String::from_str(words[1].as_str()));
        }
    } else if crate::app_type::str_eq(head, "SEARCH_DIR") {
        if words.len() > 1 {
            settings.search_dir = Some(String::from_str(words[1].as_str()));
        }
    }
}

/// How a neighbour's NAT behaves.
#[derive(Debug, Copy, Clone, PartialEq, Eq, Structural)]
pub enum Nat {
    Unknown,
    NoNat,
    FullCone,
    AddressRestrictedCone,
    PortRestrictedCone,
    SymmetricWithPortControl,
    Symmetric,
}

/// How a neighbour's NAT allocates ports.
#[derive(Debug, Copy, Clone, PartialEq, Eq, Structural)]
pub enum PortAllocationRule {
    Random,
    FullCone,
    AddressSensitive,
    PortSensitive,
}

/// The NAT a number names: 0, 1 (no NAT), 2, 4, 8, 16 and 32 in turn;
/// others are unknown.
pub open spec fn nat_of(n: u8) -> Nat {
    if n == 1 {
        Nat::NoNat
    } else if n == 2 {
        Nat::FullCone
    } else if n == 4 {
        Nat::AddressRestrictedCone
    } else if n == 8 {
        Nat::PortRestrictedCone
    } else if n == 16 {
        Nat::SymmetricWithPortControl
    } else if n == 32 {
        Nat::Symmetric
    } else {
        Nat::Unknown
    }
}

/// The port allocation rule a number names: 0, 1, 2 and 4 in turn; others
/// are random.
pub open spec fn rule_of_number(n: u8) -> PortAllocationRule {
    if n == 1 {
        PortAllocationRule::FullCone
    } else if n == 2 {
        PortAllocationRule::AddressSensitive
    } else if n == 4 {
        PortAllocationRule::PortSensitive
    } else {
        PortAllocationRule::Random
    }
}

/// The number that stands for each NAT in a neighbours line: 1 for no
/// NAT, 2 for a full cone, 4 for an address-restricted cone, 8 for a
/// port-restricted cone, 16 for symmetric with port control, 32 for
/// symmetric, 0 for unknown.
pub open spec fn nat_number(n: Nat) -> u8 {
    match n {
        Nat::Unknown => 0,
        Nat::NoNat => 1,
        Nat::FullCone => 2,
        Nat::AddressRestrictedCone => 4,
        Nat::PortRestrictedCone => 8,
        Nat::SymmetricWithPortControl => 16,
        Nat::Symmetric => 32,
    }
}

/// The number that stands for each port allocation rule: 0 for random, 1
/// for full cone, 2 for address sensitive, 4 for port sensitive.
pub open spec fn rule_number(r: PortAllocationRule) -> u8 {
    match r {
        PortAllocationRule::Random => 0,
        PortAllocationRule::FullCone => 1,
        PortAllocationRule::AddressSensitive => 2,
        PortAllocationRule::PortSensitive => 4,
    }
}

/// The NAT read from a number is the one whose number is written: writing
/// any NAT as its number and reading it back gives that NAT, and a number
/// that reads as a known NAT is that NAT's number (every other number
/// reads as unknown).
pub proof fn lemma_nat_number_roundtrip(n: Nat, x: u8)
    ensures
        nat_of(nat_number(n)) == n,
        nat_of(x) != Nat::Unknown ==> nat_number(nat_of(x)) == x,
        nat_of(x) == Nat::Unknown ==> x != 1 && x != 2 && x != 4 && x != 8 && x != 16 && x != 32,
{
}

/// The port allocation rule read from a number is the one whose number is
/// written, and a number that reads as a rule other than random is that
/// rule's number.
pub proof fn lemma_rule_number_roundtrip(r: PortAllocationRule, x: u8)
    ensures
        rule_of_number(rule_number(r)) == r,
        rule_of_number(x) != PortAllocationRule::Random ==> rule_number(rule_of_number(x)) == x,
        rule_of_number(x) == PortAllocationRule::Random ==> x != 1 && x != 2 && x != 4,
{
}

/// A line of the neighbours file: the neighbour's address, port, NAT,
/// port allocation rule with its step (always 1), and transport.
#[derive(Debug)]
pub struct NeighborLine<A, T> {
    pub ip: A,
    pub port: u16,
    pub nat: Nat,
    pub port_allocation: (PortAllocationRule, i8),
    pub transport: T,
}

/// The five words of a neighbours line read: it is no comment, and the
/// port, NAT, rule and transport are decimal numbers in range.
pub open spec fn neighbor_numbers_read(line: Seq<char>) -> bool {
    let w = crate::search::words(line);
    &&& conf_line_read(line)
    &&& w.len() >= 5
    &&& decimal(w[1]) is Some && decimal(w[1])->0 <= u16::MAX
    &&& decimal(w[2]) is Some && decimal(w[2])->0 <= u8::MAX
    &&& decimal(w[3]) is Some && decimal(w[3])->0 <= u8::MAX
    &&& decimal(w[4]) is Some && decimal(w[4])->0 <= u8::MAX
}

/// Reads a line of the neighbours file: five words, the address, then the
/// port, NAT, rule and transport as decimal numbers. The address is read
/// by `parse_ip` (the system's reading of an IP address) and the transport
/// number by `transport_of`; an unknown transport becomes `fallback`.
/// Empty lines, comments, lines with fewer words, an address that does not
/// read and numbers that do not read give `None`.
pub fn parse_neighbor_line<A, T, P: Fn(String) -> Option<A>, Q: Fn(u8) -> Option<T>>(
    line: &str,
    parse_ip: &P,
    transport_of: &Q,
    fallback: T,
) -> (r: Option<NeighborLine<A, T>>)
    requires
        forall|t: String| #[trigger] call_requires(*parse_ip, (t,)),
        forall|n: u8| #[trigger] call_requires(*transport_of, (n,)),
    ensures
        !neighbor_numbers_read(line@) ==> r is None,
        neighbor_numbers_read(line@) ==> {
            let w = crate::search::words(line@);
            exists|t: String, a: Option<A>| t@ == w[0] && #[trigger] call_ensures(*parse_ip, (t,), a) && (a is None ==> r is None) && (
            a matches Some(ip) ==> (r matches Some(nl) && nl.ip == ip && nl.port == decimal(w[1])->0 && nl.nat == nat_of(
                decimal(w[2])->0 as u8,
            ) && nl.port_allocation == (rule_of_number(decimal(w[3])->0 as u8), 1i8) && exists|o: Option<T>| #[trigger] call_ensures(
                *transport_of,
                (decimal(w[4])->0 as u8,),
                o,
            ) && nl.transport == match o {
                Some(x) => x,
                None => fallback,
            }))
        },
{
    let cs = chars_of(line);
    if cs.len() == 0 || cs[0] == '#' {
        return None;
    }
    let words = split_words(line);
    let ghost w = crate::search::words(line@);
    if words.len() < 5 {
        return None;
    }
    assert(words@[0]@ == w[0] && words@[1]@ == w[1] && words@[2]@ == w[2] && words@[3]@ == w[3] && words@[4]@ == w[4]);
    proof {
        lemma_decimal_nonneg(w[1]);
        lemma_decimal_nonneg(w[2]);
        lemma_decimal_nonneg(w[3]);
        lemma_decimal_nonneg(w[4]);
    }
    let pub_port = match parse_u16(words[1].as_str()) {
        Some(p) => p,
        None => {
            return None;
        },
    };
    let n = match parse_u8(words[2].as_str()) {
        Some(n) => n,
        None => {
            return None;
        },
    };
    let nat_type = if n == 0 {
        Nat::Unknown
    } else if n == 1 {
        Nat::NoNat
    } else if n == 2 {
        Nat::FullCone
    } else if n == 4 {
        Nat::AddressRestrictedCone
    } else if n == 8 {
        Nat::PortRestrictedCone
    } else if n == 16 {
        Nat::SymmetricWithPortControl
    } else if n == 32 {
        Nat::Symmetric
    } else {
        Nat::Unknown
    };
    let r = match parse_u8(words[3].as_str()) {
        Some(r) => r,
        None => {
            return None;
        },
    };
    let rule = if r == 0 {
        PortAllocationRule::Random
    } else if r == 1 {
        PortAllocationRule::FullCone
    } else if r == 2 {
        PortAllocationRule::AddressSensitive
    } else if r == 4 {
        PortAllocationRule::PortSensitive
    } else {
        PortAllocationRule::Random
    };
    let tn = match parse_u8(words[4].as_str()) {
        Some(t) => t,
        None => {
            return None;
        },
    };
    let ip_text = String::from_str(words[0].as_str());
    let ip = match parse_ip(ip_text) {
        Some(a) => a,
        None => {
            return None;
        },
    };
    let transport = match transport_of(tn) {
        Some(x) => x,
        None => fallback,
    };
    Some(NeighborLine { ip, port: pub_port, nat: nat_type, port_allocation: (rule, 1i8), transport })
}

} // verus!
