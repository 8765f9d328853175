//! Search queries: a text and its words, and how well a phrase matches them.

use vstd::prelude::*;
use vstd::string::StrSliceExecFns;
use vstd::string::StringExecFns;
use crate::app_type::str_eq;

verus! {

/// Whether `c` has the Unicode White_Space property, as
/// `char::is_whitespace` reads it: tab to carriage return, space, next
/// line, no-break space, ogham space mark, the spaces U+2000 to U+200A, the
/// line and paragraph separators, narrow no-break space, medium
/// mathematical space and ideographic space.
pub open spec fn is_white_space(c: char) -> bool {
    let n = c as u32;
    ||| 0x9 <= n <= 0xD
    ||| n == 0x20
    ||| n == 0x85
    ||| n == 0xA0
    ||| n == 0x1680
    ||| 0x2000 <= n <= 0x200A
    ||| n == 0x2028
    ||| n == 0x2029
    ||| n == 0x202F
    ||| n == 0x205F
    ||| n == 0x3000
}

/// Whether `c` is white space (see `is_white_space`).
pub(crate) fn char_is_whitespace(c: char) -> (r: bool)
    ensures
        r == is_white_space(c),
{
    let n = c as u32;
    (0x9 <= n && n <= 0xD) || n == 0x20 || n == 0x85 || n == 0xA0 || n == 0x1680 || (0x2000 <= n && n <= 0x200A) || n
        == 0x2028 || n == 0x2029 || n == 0x202F || n == 0x205F || n == 0x3000
}

/// `needle` occurs in `hay` as a run of consecutive characters.
pub open spec fn occurs_in(needle: Seq<char>, hay: Seq<char>) -> bool {
    exists|i: int| 0 <= i && i + needle.len() <= hay.len() && #[trigger] hay.subrange(i, i + needle.len()) == needle
}

/// Whether `needle` occurs in `hay` as a run of consecutive characters
/// (what `str::contains` with a string pattern answers).
fn str_contains(hay: &str, needle: &str) -> (r: bool)
    ensures
        r == occurs_in(needle@, hay@),
{
    let h = crate::config::chars_of(hay);
    let nd = crate::config::chars_of(needle);
    let n = h.len();
    let m = nd.len();
    if m > n {
        return false;
    }
    let mut i: usize = 0;
    while i <= n - m
        invariant
            h@ == hay@,
            nd@ == needle@,
            n == h@.len(),
            m == nd@.len(),
            m <= n,
            i <= n - m + 1,
            forall|j: int| 0 <= j < i ==> #[trigger] hay@.subrange(j, j + m) != needle@,
        decreases n - m + 1 - i,
    {
        let mut k: usize = 0;
        let mut same = true;
        while k < m && same
            invariant
                h@ == hay@,
                nd@ == needle@,
                n == h@.len(),
                m == nd@.len(),
                i + m <= n,
                k <= m,
                same ==> forall|t: int| 0 <= t < k ==> h@[i + t] == nd@[t],
                !same ==> exists|t: int| 0 <= t < m && h@[i + t] != nd@[t],
            decreases m - k, if same { 1int } else { 0int },
        {
            if h[i + k] != nd[k] {
                same = false;
            } else {
                k += 1;
            }
        }
        if same {
            assert(hay@.subrange(i as int, i + m) =~= needle@);
            return true;
        }
        proof {
            let t = choose|t: int| 0 <= t < m && h@[i + t] != nd@[t];
            assert(hay@.subrange(i as int, i + m)[t] != needle@[t]);
        }
        i += 1;
    }
    proof {
        assert forall|j: int| 0 <= j && j + needle@.len() <= hay@.len() implies #[trigger] hay@.subrange(j, j + needle@.len()) != needle@ by {
            assert(j < i);
        }
    }
    false
}

/// The end of the run of non-white-space characters of `s` starting at `i`.
pub open spec fn run_end(s: Seq<char>, i: int) -> int
    decreases s.len() - i,
{
    if i < 0 || i >= s.len() || is_white_space(s[i]) {
        i
    } else {
        run_end(s, i + 1)
    }
}

/// The run from `i` ends at or after `i`, holds no white space, and stops
/// at white space or the end.
pub proof fn lemma_run_end(s: Seq<char>, i: int)
    requires
        0 <= i <= s.len(),
    ensures
        i <= run_end(s, i) <= s.len(),
        forall|k: int| i <= k < run_end(s, i) ==> !is_white_space(#[trigger] s[k]),
        run_end(s, i) < s.len() ==> is_white_space(s[run_end(s, i)]),
    decreases s.len() - i,
{
    if i < s.len() && !is_white_space(s[i]) {
        lemma_run_end(s, i + 1);
    }
}

/// The run end is `e` when every character from `i` up to `e` is not white
/// space and `e` ends `s` or is white space.
pub proof fn lemma_run_end_at(s: Seq<char>, i: int, e: int)
    requires
        0 <= i <= e <= s.len(),
        forall|k: int| i <= k < e ==> !is_white_space(#[trigger] s[k]),
        e < s.len() ==> is_white_space(s[e]),
    ensures
        run_end(s, i) == e,
    decreases e - i,
{
    if i < e {
        lemma_run_end_at(s, i + 1, e);
    }
}

/// The words of `s` from position `i` on: its maximal runs of characters
/// that are not white space, in order.
pub open spec fn words_from(s: Seq<char>, i: int) -> Seq<Seq<char>>
    decreases s.len() - i,
{
    if i < 0 || i >= s.len() {
        Seq::empty()
    } else if is_white_space(s[i]) {
        words_from(s, i + 1)
    } else {
        proof {
            lemma_run_end(s, i);
        }
        seq![s.subrange(i, run_end(s, i))] + words_from(s, run_end(s, i))
    }
}

/// The words of `s`, as `split_whitespace` yields them.
pub open spec fn words(s: Seq<char>) -> Seq<Seq<char>> {
    words_from(s, 0)
}

/// The characters of each string.
pub open spec fn views(v: Seq<String>) -> Seq<Seq<char>> {
    v.map_values(|w: String| w@)
}

/// How many of the words `ws` (counted each time) are among `qs`.
pub open spec fn hits(qs: Seq<Seq<char>>, ws: Seq<Seq<char>>) -> nat
    decreases ws.len(),
{
    if ws.len() == 0 {
        0
    } else {
        hits(qs, ws.drop_last()) + if qs.contains(ws.last()) { 1nat } else { 0nat }
    }
}

/// A search query: its text, the set of its words, and whether it stays
/// after it has been answered.
#[derive(Debug)]
pub struct Query {
    pub text: String,
    pub words: Vec<String>,
    pub is_permanent: bool,
}

/// Whether `w` is among `ws`, and where.
fn find_word(ws: &Vec<String>, w: &str) -> (r: bool)
    ensures
        r == views(ws@).contains(w@),
{
    let mut i: usize = 0;
    while i < ws.len()
        invariant
            i <= ws@.len(),
            forall|k: int| 0 <= k < i ==> (#[trigger] ws@[k])@ != w@,
        decreases ws@.len() - i,
    {
        if str_eq(ws[i].as_str(), w) {
            assert(views(ws@)[i as int] == w@);
            return true;
        }
        i += 1;
    }
    assert forall|k: int| 0 <= k < views(ws@).len() implies #[trigger] views(ws@)[k] != w@ by {
        assert(views(ws@)[k] == ws@[k]@);
    }
    false
}

/// Scans the words of `text` from position `i` on: returns the end of the
/// next word and its start, or `None` when no word is left.
pub(crate) fn next_word(text: &str, n: usize, i: usize) -> (r: Option<(usize, usize)>)
    requires
        n == text@.len(),
        i <= n,
    ensures
        match r {
            None => words_from(text@, i as int) == Seq::<Seq<char>>::empty(),
            Some((start, end)) => i <= start < end <= n && words_from(text@, i as int) == seq![
                text@.subrange(start as int, end as int),
            ] + words_from(text@, end as int),
        },
{
    let ghost s = text@;
    let mut j = i;
    while j < n && char_is_whitespace(text.get_char(j))
        invariant
            i <= j <= n,
            n == s.len(),
            s == text@,
            words_from(s, i as int) == words_from(s, j as int),
        decreases n - j,
    {
        j += 1;
    }
    if j >= n {
        return None;
    }
    let start = j;
    let mut e = j + 1;
    while e < n && !char_is_whitespace(text.get_char(e))
        invariant
            start < e <= n,
            n == s.len(),
            s == text@,
            forall|k: int| start <= k < e ==> !is_white_space(#[trigger] s[k]),
        decreases n - e,
    {
        e += 1;
    }
    proof {
        lemma_run_end_at(s, start as int, e as int);
    }
    Some((start, e))
}

impl Query {
    /// A query of `text`, whose words are those of the text, each once.
    pub fn new(text: String, is_permanent: bool) -> (r: Self)
        ensures
            r.text@ == text@,
            r.is_permanent == is_permanent,
            views(r.words@).no_duplicates(),
            views(r.words@).to_set() == words(text@).to_set(),
    {
        let t = text.as_str();
        let n = t.unicode_len();
        let ghost s = text@;
        let ghost mut done: Seq<Seq<char>> = Seq::empty();
        let mut words_vec: Vec<String> = Vec::new();
        let mut i: usize = 0;
        loop
            invariant
                i <= n,
                n == s.len(),
                s == t@,
                words(s) == done + words_from(s, i as int),
                views(words_vec@).no_duplicates(),
                views(words_vec@).to_set() == done.to_set(),
            ensures
                words(s) == done,
                views(words_vec@).no_duplicates(),
                views(words_vec@).to_set() == done.to_set(),
            decreases n - i,
        {
            match next_word(t, n, i) {
                None => {
                    assert(done + words_from(s, i as int) =~= done);
                    break;
                },
                Some((start, end)) => {
                    let w = t.substring_char(start, end);
                    let ghost old_done = done;
                    proof {
                        assert(done + words_from(s, i as int) =~= done.push(w@) + words_from(s, end as int));
                        done = done.push(w@);
                        old_done.lemma_push_to_set_commute(w@);
                    }
                    if !find_word(&words_vec, w) {
                        let ghost before = views(words_vec@);
                        words_vec.push(String::from_str(w));
                        proof {
                            assert(views(words_vec@) =~= before.push(w@));
                            before.lemma_push_to_set_commute(w@);
                            assert(views(words_vec@).no_duplicates()) by {
                                assert forall|a: int, b: int| 0 <= a < b < views(words_vec@).len() implies views(words_vec@)[a]
                                    != views(words_vec@)[b] by {
                                    if b == before.len() {
                                        assert(before.contains(before[a]));
                                    }
                                }
                            }
                        }
                    } else {
                        proof {
                            assert(views(words_vec@).to_set().contains(w@));
                            assert(views(words_vec@).to_set() =~= views(words_vec@).to_set().insert(w@));
                        }
                    }
                    i = end;
                },
            }
        }
        Query { text, words: words_vec, is_permanent }
    }

    /// How well `phrase` matches the query: 101 when the query's text
    /// occurs in it; otherwise a hundred times the number of the phrase's
    /// words (counted each time) that are words of the query, divided by the
    /// number of the query's words, truncated to a byte.
    pub fn compare(&self, phrase: &String) -> (r: u8)
        requires
            self.words@.len() > 0 || occurs_in(self.text@, phrase@),
            phrase@.len() < usize::MAX / 100,
        ensures
            occurs_in(self.text@, phrase@) ==> r == 101,
            !occurs_in(self.text@, phrase@) ==> r == ((100 * hits(views(self.words@), words(phrase@))) as int / (self.words@.len() as int)) as u8,
    {
        if str_contains(phrase.as_str(), self.text.as_str()) {
            return 101;
        }
        let p = phrase.as_str();
        let n = p.unicode_len();
        let ghost s = phrase@;
        let ghost mut done: Seq<Seq<char>> = Seq::empty();
        let mut score: usize = 0;
        let mut i: usize = 0;
        loop
            invariant
                i <= n,
                n == s.len(),
                s == p@,
                n < usize::MAX / 100,
                words(s) == done + words_from(s, i as int),
                score == hits(views(self.words@), done),
                score <= i,
            ensures
                words(s) == done,
                score == hits(views(self.words@), done),
                score < usize::MAX / 100,
            decreases n - i,
        {
            match next_word(p, n, i) {
                None => {
                    assert(done + words_from(s, i as int) =~= done);
                    break;
                },
                Some((start, end)) => {
                    let w = p.substring_char(start, end);
                    proof {
                        assert(done + words_from(s, i as int) =~= done.push(w@) + words_from(s, end as int));
                        assert(done.push(w@).drop_last() =~= done);
                    }
                    if find_word(&self.words, w) {
                        score = score + 1;
                    }
                    proof {
                        done = done.push(w@);
                    }
                    i = end;
                },
            }
        }
        let res = (100 * score / self.words.len()) as u8;
        res
    }
}

/// What the search engine is doing: idling, or going through the contents
/// of a swarm (those still to go through), with the swarms queued after it.
#[derive(Debug)]
pub enum EngineState {
    Idling,
    Processing(crate::swarm::SwarmID, Vec<u16>, Vec<crate::swarm::SwarmID>),
}

impl EngineState {
    pub fn is_idling(&self) -> (r: bool)
        ensures
            r == (*self is Idling),
    {
        matches!(self, EngineState::Idling)
    }

    /// Queues swarm `add_swarm_id` behind the one being gone through,
    /// unless it is queued already; an idle engine stays idle.
    pub fn enqueue_swarm(&mut self, add_swarm_id: crate::swarm::SwarmID)
        ensures
            match *old(self) {
                EngineState::Idling => *final(self) is Idling,
                EngineState::Processing(s, p, q) => *final(self) matches EngineState::Processing(s2, p2, q2) && s2 == s
                    && p2@ == p@ && q2@ == if q@.contains(add_swarm_id) {
                    q@
                } else {
                    q@.push(add_swarm_id)
                },
            },
    {
        let mut state = EngineState::Idling;
        std::mem::swap(self, &mut state);
        if let EngineState::Processing(s_id, processing, mut to_process) = state {
            let mut found = false;
            let mut i: usize = 0;
            while i < to_process.len()
                invariant
                    i <= to_process@.len(),
                    found == exists|j: int| 0 <= j < i && to_process@[j] == add_swarm_id,
                decreases to_process@.len() - i,
            {
                if to_process[i].0 == add_swarm_id.0 {
                    found = true;
                }
                i += 1;
            }
            if !found {
                to_process.push(add_swarm_id);
            }
            *self = EngineState::Processing(s_id, processing, to_process);
        }
    }

    /// The contents `c_done_ids` of swarm `s_done_id` were gone through:
    /// where that is the swarm being gone through, they are no longer to
    /// go through, and the answer is whether none is left; otherwise
    /// nothing changes and the answer is false.
    pub fn processing_done(&mut self, s_done_id: crate::swarm::SwarmID, c_done_ids: Vec<u16>) -> (r: bool)
        ensures
            match *old(self) {
                EngineState::Idling => *final(self) is Idling && !r,
                EngineState::Processing(s, p, q) => if s != s_done_id {
                    *final(self) == *old(self) && !r
                } else {
                    *final(self) matches EngineState::Processing(s2, p2, q2) && s2 == s && q2 == q && p2@ == p@.filter(
                        |j: u16| !c_done_ids@.contains(j),
                    ) && r == (p2@.len() == 0)
                },
            },
    {
        let mut state = EngineState::Idling;
        std::mem::swap(self, &mut state);
        match state {
            EngineState::Processing(s_id, processing, to_process) => {
                if s_id.0 != s_done_id.0 {
                    *self = EngineState::Processing(s_id, processing, to_process);
                    return false;
                }
                let mut kept: Vec<u16> = Vec::new();
                let mut i: usize = 0;
                while i < processing.len()
                    invariant
                        i <= processing@.len(),
                        kept@ == processing@.take(i as int).filter(|j: u16| !c_done_ids@.contains(j)),
                    decreases processing@.len() - i,
                {
                    let c = processing[i];
                    let mut done = false;
                    let mut k: usize = 0;
                    while k < c_done_ids.len()
                        invariant
                            k <= c_done_ids@.len(),
                            done == exists|x: int| 0 <= x < k && c_done_ids@[x] == c,
                        decreases c_done_ids@.len() - k,
                    {
                        if c_done_ids[k] == c {
                            done = true;
                        }
                        k += 1;
                    }
                    proof {
                        reveal_with_fuel(Seq::filter, 1);
                        assert(processing@.take(i + 1).drop_last() =~= processing@.take(i as int));
                    }
                    if !done {
                        kept.push(c);
                    }
                    i += 1;
                }
                assert(processing@.take(processing@.len() as int) =~= processing@);
                let is_empty = kept.len() == 0;
                *self = EngineState::Processing(s_id, kept, to_process);
                is_empty
            },
            EngineState::Idling => false,
        }
    }
}

} // verus!
