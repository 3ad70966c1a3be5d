//! Turning the entities an LLM reports into predicted spans: stripping the
//! Markdown fences around its JSON answer, and resolving each entity to
//! character offsets in the source text without reusing a span twice.

use vstd::prelude::*;

use crate::checker::extract;
use crate::model::PredictedSpan;
use vstd::string::StrSliceExecFns;

use crate::counts_map::same_text;
use crate::text::chars_of;

verus! {

/// An entity as the LLM reports it: a type, the text it found and the
/// character offsets it claims for that text.
#[derive(Debug)]
pub struct LlmEntity {
    pub entity_type: String,
    pub text: String,
    pub start: usize,
    pub end: usize,
}

// ── Fences ───────────────────────────────────────────────────────────────────

/// The characters with the Unicode `White_Space` property, which is what
/// `char::is_whitespace` and `str::trim` go by.
pub open spec fn is_white_space(c: char) -> bool {
    let v = c as u32;
    ||| 0x09 <= v <= 0x0d
    ||| v == 0x20
    ||| v == 0x85
    ||| v == 0xa0
    ||| v == 0x1680
    ||| 0x2000 <= v <= 0x200a
    ||| v == 0x2028
    ||| v == 0x2029
    ||| v == 0x202f
    ||| v == 0x205f
    ||| v == 0x3000
}

pub fn is_white_space_char(c: char) -> (r: bool)
    ensures
        r == is_white_space(c),
{
    let v = c as u32;
    (0x09 <= v && v <= 0x0d) || v == 0x20 || v == 0x85 || v == 0xa0 || v == 0x1680 || (0x2000 <= v
        && v <= 0x200a) || v == 0x2028 || v == 0x2029 || v == 0x202f || v == 0x205f || v == 0x3000
}

/// The number of white-space characters at the start of `s`.
pub open spec fn ws_prefix_len(s: Seq<char>) -> nat
    decreases s.len(),
{
    if s.len() > 0 && is_white_space(s[0]) {
        1 + ws_prefix_len(s.drop_first())
    } else {
        0
    }
}

/// The number of white-space characters at the end of `s`.
pub open spec fn ws_suffix_len(s: Seq<char>) -> nat
    decreases s.len(),
{
    if s.len() > 0 && is_white_space(s.last()) {
        1 + ws_suffix_len(s.drop_last())
    } else {
        0
    }
}

/// `s` without leading and trailing white space.
pub open spec fn trim(s: Seq<char>) -> Seq<char> {
    let t = s.skip(ws_prefix_len(s) as int);
    t.take(t.len() - ws_suffix_len(t))
}

pub proof fn lemma_ws_prefix_le(s: Seq<char>)
    ensures
        ws_prefix_len(s) <= s.len(),
    decreases s.len(),
{
    if s.len() > 0 && is_white_space(s[0]) {
        lemma_ws_prefix_le(s.drop_first());
    }
}

pub proof fn lemma_ws_suffix_le(s: Seq<char>)
    ensures
        ws_suffix_len(s) <= s.len(),
    decreases s.len(),
{
    if s.len() > 0 && is_white_space(s.last()) {
        lemma_ws_suffix_le(s.drop_last());
    }
}

/// The bounds of `v[lo..hi]` without its leading and trailing white space.
fn trim_range(v: &Vec<char>, lo: usize, hi: usize) -> (r: (usize, usize))
    requires
        lo <= hi <= v@.len(),
    ensures
        lo <= r.0 <= r.1 <= hi,
        v@.subrange(r.0 as int, r.1 as int) == trim(v@.subrange(lo as int, hi as int)),
{
    let mut a = lo;
    while a < hi && is_white_space_char(v[a])
        invariant
            lo <= a <= hi <= v@.len(),
            ws_prefix_len(v@.subrange(lo as int, hi as int)) == (a - lo) + ws_prefix_len(
                v@.subrange(a as int, hi as int),
            ),
        decreases hi - a,
    {
        assert(v@.subrange(a as int, hi as int).drop_first() =~= v@.subrange(a + 1, hi as int));
        a = a + 1;
    }
    let mut b = hi;
    while b > a && is_white_space_char(v[b - 1])
        invariant
            lo <= a <= b <= hi <= v@.len(),
            ws_suffix_len(v@.subrange(a as int, hi as int)) == (hi - b) + ws_suffix_len(
                v@.subrange(a as int, b as int),
            ),
        decreases b - a,
    {
        assert(v@.subrange(a as int, b as int).drop_last() =~= v@.subrange(a as int, b - 1));
        b = b - 1;
    }
    proof {
        let whole = v@.subrange(lo as int, hi as int);
        assert(whole.skip(a - lo) =~= v@.subrange(a as int, hi as int));
        assert(v@.subrange(a as int, hi as int).take(b - a) =~= v@.subrange(a as int, b as int));
    }
    (a, b)
}

/// Three backticks, the Markdown code fence.
pub open spec fn fence() -> Seq<char> {
    seq!['`', '`', '`']
}

/// The first position at or after `from` where `s` holds `c`.
pub open spec fn index_of_from(s: Seq<char>, c: char, from: int) -> Option<int>
    decreases s.len() - from,
{
    if from < 0 || from >= s.len() {
        None
    } else if s[from] == c {
        Some(from)
    } else {
        index_of_from(s, c, from + 1)
    }
}

/// The last position at or before `p` where `needle` occurs in `s`.
pub open spec fn last_occurrence_upto(s: Seq<char>, needle: Seq<char>, p: int) -> Option<int>
    decreases p + 1,
{
    if p < 0 {
        None
    } else if occurs_at(s, needle, p) {
        Some(p)
    } else {
        last_occurrence_upto(s, needle, p - 1)
    }
}

/// The start of the last occurrence of `needle` in `s`.
pub open spec fn last_occurrence(s: Seq<char>, needle: Seq<char>) -> Option<int> {
    last_occurrence_upto(s, needle, s.len() - needle.len())
}

/// The JSON inside a fenced block: the text trimmed; when it opens with a
/// fence, what follows the rest of the opening line, up to the last fence,
/// trimmed again.
pub open spec fn spec_strip_json_fences(s: Seq<char>) -> Seq<char> {
    let t = trim(s);
    if t.len() >= 3 && t.take(3) == fence() {
        let rest = t.skip(3);
        let after_tag = match index_of_from(rest, '\n', 0) {
            Some(i) => rest.skip(i + 1),
            None => rest,
        };
        let before_close = match last_occurrence(after_tag, fence()) {
            Some(j) => after_tag.take(j),
            None => after_tag,
        };
        trim(before_close)
    } else {
        t
    }
}

/// Whether `v` holds a fence at `p`, within `v[lo..hi]`.
fn fence_at(v: &Vec<char>, lo: usize, hi: usize, p: usize) -> (r: bool)
    requires
        lo <= p <= hi <= v@.len(),
    ensures
        r == occurs_at(v@.subrange(lo as int, hi as int), fence(), p - lo),
{
    let seg = Ghost(v@.subrange(lo as int, hi as int));
    if hi - p < 3 {
        return false;
    }
    let r = v[p] == '`' && v[p + 1] == '`' && v[p + 2] == '`';
    proof {
        let w = seg@.subrange(p - lo, p - lo + 3);
        assert(w =~= v@.subrange(p as int, p + 3));
        if r {
            assert(w =~= fence());
        } else {
            if w == fence() {
                assert(w[0] == '`' && w[1] == '`' && w[2] == '`');
            }
        }
    }
    r
}

/// Strips the Markdown code fences an LLM may wrap its JSON answer in.
pub fn strip_json_fences(s: &str) -> (r: &str)
    ensures
        r@ == spec_strip_json_fences(s@),
{
    let v = chars_of(s);
    let n = v.len();
    let (a, b) = trim_range(&v, 0, n);
    proof {
        assert(v@.subrange(0, n as int) =~= s@);
    }
    let ghost t = v@.subrange(a as int, b as int);
    if b - a >= 3 && v[a] == '`' && v[a + 1] == '`' && v[a + 2] == '`' {
        proof {
            assert(t.take(3) =~= fence());
        }
        let ghost rest = t.skip(3);
        let rs = a + 3;
        proof {
            assert(rest =~= v@.subrange(rs as int, b as int));
        }
        // The line that opens the fence (with its optional tag) ends at the
        // first newline.
        let mut i = rs;
        while i < b && v[i] != '\n'
            invariant
                rs <= i <= b <= v@.len(),
                rest == v@.subrange(rs as int, b as int),
                index_of_from(rest, '\n', 0) == index_of_from(rest, '\n', i - rs),
            decreases b - i,
        {
            i = i + 1;
        }
        let x = if i < b {
            i + 1
        } else {
            rs
        };
        let ghost after_tag = v@.subrange(x as int, b as int);
        proof {
            if i < b {
                assert(index_of_from(rest, '\n', 0) == Some(i - rs));
                assert(rest.skip(i - rs + 1) =~= after_tag);
            } else {
                assert(index_of_from(rest, '\n', 0) == None::<int>);
            }
        }
        // The closing fence is the last one.
        let mut q = if b - x >= 3 {
            b - x - 2
        } else {
            0
        };
        let mut found = false;
        let mut j: usize = 0;
        while q > 0
            invariant
                x <= b <= v@.len(),
                q <= b - x,
                after_tag == v@.subrange(x as int, b as int),
                !found ==> last_occurrence(after_tag, fence()) == last_occurrence_upto(
                    after_tag,
                    fence(),
                    q - 1,
                ),
                found ==> q == 0,
                found ==> last_occurrence(after_tag, fence()) == Some(j as int) && j + x <= b,
            decreases q,
        {
            if fence_at(&v, x, b, x + (q - 1)) {
                found = true;
                j = q - 1;
                q = 0;
            } else {
                q = q - 1;
            }
        }
        proof {
            if !found {
                assert(last_occurrence_upto(after_tag, fence(), -1) == None::<int>);
            }
        }
        let end = if found {
            x + j
        } else {
            b
        };
        proof {
            if found {
                assert(after_tag.take(j as int) =~= v@.subrange(x as int, end as int));
            }
        }
        let (a2, b2) = trim_range(&v, x, end);
        proof {
            let before_close = match last_occurrence(after_tag, fence()) {
                Some(jj) => after_tag.take(jj),
                None => after_tag,
            };
            if !found {
                assert(after_tag =~= v@.subrange(x as int, end as int));
            }
            assert(before_close == v@.subrange(x as int, end as int));
            assert(trim(s@) == t);
        }
        s.substring_char(a2, b2)
    } else {
        proof {
            assert(trim(s@) == t);
            if t.len() >= 3 && t.take(3) == fence() {
                assert(t.take(3)[0] == t[0]);
                assert(t.take(3)[1] == t[1]);
                assert(t.take(3)[2] == t[2]);
                assert(v@[a as int] == t[0]);
                assert(v@[a + 1] == t[1]);
                assert(v@[a + 2] == t[2]);
            }
        }
        s.substring_char(a, b)
    }
}

// ── Ranges ───────────────────────────────────────────────────────────────────

/// Two half-open ranges share at least one position.
pub open spec fn ranges_overlap(a: (int, int), b: (int, int)) -> bool {
    a.0 < b.1 && a.1 > b.0
}

pub open spec fn range_int(r: (usize, usize)) -> (int, int) {
    (r.0 as int, r.1 as int)
}

/// `range` overlaps one of the `used` ranges.
pub open spec fn overlaps_any_spec(range: (int, int), used: Seq<(usize, usize)>) -> bool {
    exists|j: int| 0 <= j < used.len() && #[trigger] ranges_overlap(range, range_int(used[j]))
}

/// Whether `range` overlaps one of the `used` ranges.
pub fn overlaps_any(range: (usize, usize), used: &[(usize, usize)]) -> (r: bool)
    ensures
        r == overlaps_any_spec(range_int(range), used@),
{
    let mut j: usize = 0;
    while j < used.len()
        invariant
            j <= used@.len(),
            forall|k: int| 0 <= k < j ==> !#[trigger] ranges_overlap(range_int(range), range_int(used@[k])),
        decreases used@.len() - j,
    {
        let (us, ue) = used[j];
        if range.0 < ue && range.1 > us {
            assert(ranges_overlap(range_int(range), range_int(used@[j as int])));
            return true;
        }
        j = j + 1;
    }
    false
}

// ── Occurrences ──────────────────────────────────────────────────────────────

/// `needle` occurs in `s` starting at character `p`.
pub open spec fn occurs_at(s: Seq<char>, needle: Seq<char>, p: int) -> bool {
    0 <= p && p + needle.len() <= s.len() && s.subrange(p, p + needle.len()) == needle
}

/// How far a left-to-right search moves on after a match: past the match,
/// or one character for an empty needle.
pub open spec fn match_step(needle: Seq<char>) -> int {
    if needle.len() == 0 {
        1
    } else {
        needle.len() as int
    }
}

/// Scanning `s` from `from` for non-overlapping occurrences of `needle`, left
/// to right, the first one that overlaps none of the `used` ranges.
pub open spec fn first_free_occurrence(
    s: Seq<char>,
    needle: Seq<char>,
    used: Seq<(usize, usize)>,
    from: int,
) -> Option<(int, int)>
    decreases s.len() + 1 - from,
{
    if from < 0 || from > s.len() {
        None
    } else if occurs_at(s, needle, from) {
        if !overlaps_any_spec((from, from + needle.len()), used) {
            Some((from, from + needle.len()))
        } else {
            first_free_occurrence(s, needle, used, from + match_step(needle))
        }
    } else {
        first_free_occurrence(s, needle, used, from + 1)
    }
}

pub open spec fn opt_range_int(r: Option<(usize, usize)>) -> Option<(int, int)> {
    match r {
        Some(x) => Some(range_int(x)),
        None => None,
    }
}

/// Whether `needle` occurs in `hay` at `p`.
fn matches_at(hay: &Vec<char>, needle: &Vec<char>, p: usize) -> (r: bool)
    requires
        p <= hay@.len(),
    ensures
        r == occurs_at(hay@, needle@, p as int),
{
    if needle.len() > hay.len() - p {
        return false;
    }
    let mut k: usize = 0;
    while k < needle.len()
        invariant
            p + needle@.len() <= hay@.len(),
            hay@.len() <= usize::MAX,
            k <= needle@.len(),
            forall|q: int| 0 <= q < k ==> hay@[p + q] == needle@[q],
        decreases needle@.len() - k,
    {
        if hay[p + k] != needle[k] {
            assert(hay@.subrange(p as int, p + needle@.len())[k as int] != needle@[k as int]);
            return false;
        }
        k = k + 1;
    }
    assert(hay@.subrange(p as int, p + needle@.len()) =~= needle@);
    true
}

/// The first occurrence of `needle` in `source`, in a left-to-right scan of
/// non-overlapping occurrences, that overlaps none of the `used` ranges, as
/// character offsets.
pub fn find_next_occurrence(source: &str, needle: &str, used: &[(usize, usize)]) -> (r: Option<
    (usize, usize),
>)
    ensures
        opt_range_int(r) == first_free_occurrence(source@, needle@, used@, 0),
{
    let hay = chars_of(source);
    let pat = chars_of(needle);
    let n = hay.len();
    let m = pat.len();
    let mut pos: usize = 0;
    loop
        invariant
            hay@ == source@,
            pat@ == needle@,
            n == hay@.len(),
            m == pat@.len(),
            pos <= n,
            first_free_occurrence(source@, needle@, used@, 0) == first_free_occurrence(
                source@,
                needle@,
                used@,
                pos as int,
            ),
        decreases n - pos,
    {
        if matches_at(&hay, &pat, pos) {
            let range = (pos, pos + m);
            if !overlaps_any(range, used) {
                return Some(range);
            }
            let step = if m == 0 {
                1
            } else {
                m
            };
            if step > n - pos {
                proof {
                    assert(first_free_occurrence(source@, needle@, used@, pos + step) == None::<
                        (int, int),
                    >);
                }
                return None;
            }
            pos = pos + step;
        } else {
            if pos == n {
                proof {
                    assert(first_free_occurrence(source@, needle@, used@, pos + 1) == None::<
                        (int, int),
                    >);
                }
                return None;
            }
            pos = pos + 1;
        }
    }
}

/// What the scan finds is a free occurrence of the needle.
pub proof fn lemma_first_free_occurrence(s: Seq<char>, needle: Seq<char>, used: Seq<(usize, usize)>, from: int)
    ensures
        first_free_occurrence(s, needle, used, from) matches Some(r) ==> {
            &&& from <= r.0
            &&& r.1 == r.0 + needle.len()
            &&& occurs_at(s, needle, r.0)
            &&& !overlaps_any_spec(r, used)
        },
    decreases s.len() + 1 - from,
{
    if 0 <= from <= s.len() {
        if occurs_at(s, needle, from) {
            if overlaps_any_spec((from, from + needle.len()), used) {
                lemma_first_free_occurrence(s, needle, used, from + match_step(needle));
            }
        } else {
            lemma_first_free_occurrence(s, needle, used, from + 1);
        }
    }
}

// ── Offset resolution ────────────────────────────────────────────────────────

/// The range an entity resolves to, given the ranges already taken: the
/// LLM's own offsets when the text they cover is the entity's text and they
/// are free, else the first free occurrence of the text; nothing for an
/// empty text.
pub open spec fn spec_resolve_offset(src: Seq<char>, e: LlmEntity, used: Seq<(usize, usize)>) -> Option<
    (int, int),
> {
    if e.text@.len() == 0 {
        None
    } else if extract(src, e.start as int, e.end as int) == e.text@ && !overlaps_any_spec(
        (e.start as int, e.end as int),
        used,
    ) {
        Some((e.start as int, e.end as int))
    } else {
        first_free_occurrence(src, e.text@, used, 0)
    }
}

/// Resolves one entity to a character range of `source` that overlaps none
/// of the `used` ranges.
pub fn resolve_offset(source: &str, entity: &LlmEntity, used: &[(usize, usize)]) -> (r: Option<
    (usize, usize),
>)
    ensures
        opt_range_int(r) == spec_resolve_offset(source@, *entity, used@),
        entity.text@.len() > 0 && extract(source@, entity.start as int, entity.end as int) == entity.text@
            && !overlaps_any_spec((entity.start as int, entity.end as int), used@) ==> r == Some(
            (entity.start, entity.end),
        ),
        r matches Some(range) ==> {
            &&& entity.text@.len() > 0
            &&& extract(source@, range.0 as int, range.1 as int) == entity.text@
            &&& !overlaps_any_spec(range_int(range), used@)
        },
{
    proof {
        if entity.text@.len() > 0 && extract(source@, entity.start as int, entity.end as int)
            == entity.text@ && !overlaps_any_spec((entity.start as int, entity.end as int), used@) {
            law_valid_llm_offsets_are_kept(source@, *entity, used@);
        }
        law_resolved_offset_is_free_text(source@, *entity, used@);
    }
    if entity.text.as_str().is_empty() {
        return None;
    }
    let llm_range = (entity.start, entity.end);
    if covers_text(source, entity.start, entity.end, entity.text.as_str()) && !overlaps_any(
        llm_range,
        used,
    ) {
        return Some(llm_range);
    }
    find_next_occurrence(source, entity.text.as_str(), used)
}

/// Whether the characters of `source` from `start` to `end` (each clamped to
/// the end of `source`) are exactly `text`.
fn covers_text(source: &str, start: usize, end: usize, text: &str) -> (r: bool)
    ensures
        r == (extract(source@, start as int, end as int) == text@),
{
    let n = source.unicode_len();
    let a = if start < n {
        start
    } else {
        n
    };
    let b = if end < n {
        end
    } else {
        n
    };
    if a <= b {
        same_text(source.substring_char(a, b), text)
    } else {
        let empty = "";
        proof {
            reveal_strlit("");
            assert(empty@ =~= Seq::<char>::empty());
        }
        same_text(empty, text)
    }
}

/// The entities resolved among the first `k`, in order: each entry is the
/// index of the entity and the range it resolved to.
pub open spec fn resolution(src: Seq<char>, ents: Seq<LlmEntity>, k: nat) -> Seq<(int, (usize, usize))>
    decreases k,
{
    if k == 0 {
        Seq::empty()
    } else {
        let prev = resolution(src, ents, (k - 1) as nat);
        match spec_resolve_offset(src, ents[k - 1], used_ranges(prev)) {
            Some(r) => prev.push((k - 1, (r.0 as usize, r.1 as usize))),
            None => prev,
        }
    }
}

/// The ranges taken by a resolution.
pub open spec fn used_ranges(res: Seq<(int, (usize, usize))>) -> Seq<(usize, usize)> {
    res.map_values(|x: (int, (usize, usize))| x.1)
}

/// `spans` are the resolved entities of `ents`: the type of each entity
/// that resolved, with the range it resolved to.
pub open spec fn spans_are_resolution(spans: Seq<PredictedSpan>, src: Seq<char>, ents: Seq<LlmEntity>) -> bool {
    let res = resolution(src, ents, ents.len());
    &&& spans.len() == res.len()
    &&& forall|j: int|
        0 <= j < spans.len() ==> {
            &&& (#[trigger] spans[j]).entity_type@ == ents[res[j].0].entity_type@
            &&& spans[j].start == res[j].1.0
            &&& spans[j].end == res[j].1.1
        }
}

/// Resolves the entities in order, each to a range that no earlier entity
/// took; entities that cannot be placed are left out.
pub fn resolve_spans(source: &str, entities: Vec<LlmEntity>) -> (spans: Vec<PredictedSpan>)
    ensures
        spans_are_resolution(spans@, source@, entities@),
{
    let ghost ents = entities@;
    let mut used: Vec<(usize, usize)> = Vec::new();
    let mut spans: Vec<PredictedSpan> = Vec::new();
    let mut i: usize = 0;
    while i < entities.len()
        invariant
            ents == entities@,
            i <= ents.len(),
            used@ == used_ranges(resolution(source@, ents, i as nat)),
            spans@.len() == resolution(source@, ents, i as nat).len(),
            forall|j: int|
                0 <= j < spans@.len() ==> {
                    let res = resolution(source@, ents, i as nat);
                    &&& (#[trigger] spans@[j]).entity_type@ == ents[res[j].0].entity_type@
                    &&& spans@[j].start == res[j].1.0
                    &&& spans@[j].end == res[j].1.1
                },
        decreases ents.len() - i,
    {
        let entity = &entities[i];
        let ghost prev = resolution(source@, ents, i as nat);
        match resolve_offset(source, entity, used.as_slice()) {
            Some((start, end)) => {
                used.push((start, end));
                spans.push(PredictedSpan { entity_type: entity.entity_type.clone(), start, end });
                proof {
                    let next = resolution(source@, ents, (i + 1) as nat);
                    assert(next == prev.push((i as int, (start, end))));
                    assert(used@ =~= used_ranges(next));
                }
            },
            None => {},
        }
        i = i + 1;
    }
    spans
}

// ── Laws ─────────────────────────────────────────────────────────────────────

/// Entry `j` of a resolution covers its entity's text in `src`.
pub open spec fn entry_covers_text(src: Seq<char>, ents: Seq<LlmEntity>, x: (int, (usize, usize))) -> bool {
    &&& 0 <= x.0 < ents.len()
    &&& ents[x.0].text@.len() > 0
    &&& extract(src, x.1.0 as int, x.1.1 as int) == ents[x.0].text@
}

proof fn lemma_resolution(src: Seq<char>, ents: Seq<LlmEntity>, k: nat)
    requires
        src.len() <= usize::MAX,
        k <= ents.len(),
    ensures
        resolution(src, ents, k).len() <= k,
        forall|j: int|
            0 <= j < resolution(src, ents, k).len() ==> #[trigger] resolution(src, ents, k)[j].0 < k,
        forall|i: int, j: int|
            0 <= i < j < resolution(src, ents, k).len() ==> #[trigger] resolution(src, ents, k)[i].0
                < #[trigger] resolution(src, ents, k)[j].0,
        forall|j: int|
            0 <= j < resolution(src, ents, k).len() ==> entry_covers_text(
                src,
                ents,
                #[trigger] resolution(src, ents, k)[j],
            ),
        forall|i: int, j: int|
            0 <= i < j < resolution(src, ents, k).len() ==> !ranges_overlap(
                range_int(#[trigger] resolution(src, ents, k)[i].1),
                range_int(#[trigger] resolution(src, ents, k)[j].1),
            ),
    decreases k,
{
    if k > 0 {
        let prev = resolution(src, ents, (k - 1) as nat);
        lemma_resolution(src, ents, (k - 1) as nat);
        let e = ents[k - 1];
        let used = used_ranges(prev);
        lemma_first_free_occurrence(src, e.text@, used, 0);
        match spec_resolve_offset(src, e, used) {
            Some(r) => {
                let cur = resolution(src, ents, k);
                let x = (k - 1, (r.0 as usize, r.1 as usize));
                assert(cur == prev.push(x));
                assert(!overlaps_any_spec(r, used));
                assert(range_int(x.1) == r);
                if !(extract(src, e.start as int, e.end as int) == e.text@ && !overlaps_any_spec(
                    (e.start as int, e.end as int),
                    used,
                )) {
                    assert(src.subrange(r.0, r.0 + e.text@.len()) == e.text@);
                }
                assert(entry_covers_text(src, ents, x));
                assert forall|i: int, j: int| 0 <= i < j < cur.len() implies !ranges_overlap(
                    range_int(#[trigger] cur[i].1),
                    range_int(#[trigger] cur[j].1),
                ) by {
                    if j == cur.len() - 1 {
                        assert(used[i] == prev[i].1);
                        if ranges_overlap(range_int(cur[i].1), range_int(cur[j].1)) {
                            assert(ranges_overlap(r, range_int(used[i])));
                        }
                    } else {
                        assert(cur[i] == prev[i]);
                        assert(cur[j] == prev[j]);
                    }
                }
                assert forall|j: int| 0 <= j < cur.len() implies entry_covers_text(
                    src,
                    ents,
                    #[trigger] cur[j],
                ) by {
                    if j < cur.len() - 1 {
                        assert(cur[j] == prev[j]);
                    }
                }
            },
            None => {},
        }
    }
}

/// No two resolved spans overlap: an entity never lands on a range another
/// entity already took, even when the LLM gives both the same offsets.
pub proof fn law_resolved_spans_disjoint(src: Seq<char>, ents: Seq<LlmEntity>)
    requires
        src.len() <= usize::MAX,
    ensures
        forall|i: int, j: int|
            0 <= i < j < resolution(src, ents, ents.len()).len() ==> !ranges_overlap(
                range_int(#[trigger] resolution(src, ents, ents.len())[i].1),
                range_int(#[trigger] resolution(src, ents, ents.len())[j].1),
            ),
{
    lemma_resolution(src, ents, ents.len());
}

/// Every resolved span covers, in the source, exactly the text the LLM
/// reported for its entity, and entities keep their order.
pub proof fn law_resolved_spans_cover_their_text(src: Seq<char>, ents: Seq<LlmEntity>)
    requires
        src.len() <= usize::MAX,
    ensures
        resolution(src, ents, ents.len()).len() <= ents.len(),
        forall|j: int|
            0 <= j < resolution(src, ents, ents.len()).len() ==> entry_covers_text(
                src,
                ents,
                #[trigger] resolution(src, ents, ents.len())[j],
            ),
        forall|i: int, j: int|
            0 <= i < j < resolution(src, ents, ents.len()).len() ==> #[trigger] resolution(
                src,
                ents,
                ents.len(),
            )[i].0 < #[trigger] resolution(src, ents, ents.len())[j].0,
{
    lemma_resolution(src, ents, ents.len());
}

/// The LLM's own offsets are kept whenever they are right: when the
/// entity's text is not empty, the source holds exactly that text from the
/// entity's start to its end, and that range overlaps none of the ranges
/// already taken, the entity resolves to exactly its own offsets, even where
/// the same text occurs earlier.
pub proof fn law_valid_llm_offsets_are_kept(src: Seq<char>, e: LlmEntity, used: Seq<(usize, usize)>)
    requires
        e.text@.len() > 0,
        extract(src, e.start as int, e.end as int) == e.text@,
        !overlaps_any_spec((e.start as int, e.end as int), used),
    ensures
        spec_resolve_offset(src, e, used) == Some((e.start as int, e.end as int)),
{
}

/// Whatever an entity resolves to holds, in the source, exactly the entity's
/// (non-empty) text and overlaps none of the ranges already taken.
pub proof fn law_resolved_offset_is_free_text(src: Seq<char>, e: LlmEntity, used: Seq<(usize, usize)>)
    ensures
        spec_resolve_offset(src, e, used) matches Some(r) ==> {
            &&& e.text@.len() > 0
            &&& 0 <= r.0
            &&& extract(src, r.0, r.1) == e.text@
            &&& !overlaps_any_spec(r, used)
        },
{
    lemma_first_free_occurrence(src, e.text@, used, 0);
    if let Some(r) = spec_resolve_offset(src, e, used) {
        if e.text@.len() > 0 && !(extract(src, e.start as int, e.end as int) == e.text@
            && !overlaps_any_spec((e.start as int, e.end as int), used)) {
            assert(occurs_at(src, e.text@, r.0));
            assert(extract(src, r.0, r.1) =~= src.subrange(r.0, r.0 + e.text@.len()));
        }
    }
}

/// Where `s` holds a newline at `i` and none from `from` up to `i`, the
/// first newline from `from` on is at `i`.
proof fn lemma_first_newline(s: Seq<char>, from: int, i: int)
    requires
        0 <= from <= i < s.len(),
        s[i] == '\n',
        forall|k: int| from <= k < i ==> s[k] != '\n',
    ensures
        index_of_from(s, '\n', from) == Some(i),
    decreases i - from,
{
    if from < i {
        lemma_first_newline(s, from + 1, i);
    }
}

/// Where `needle` occurs at `j` and nowhere after, the last occurrence at or
/// before any `p >= j` is at `j`.
proof fn lemma_last_occurrence_at(s: Seq<char>, needle: Seq<char>, j: int, p: int)
    requires
        occurs_at(s, needle, j),
        j <= p,
        forall|q: int| j < q ==> !#[trigger] occurs_at(s, needle, q),
    ensures
        last_occurrence_upto(s, needle, p) == Some(j),
    decreases p - j,
{
    if p > j {
        lemma_last_occurrence_at(s, needle, j, p - 1);
    }
}

/// When the trimmed answer opens with a fence, the rest of that opening line
/// (its language tag) is dropped up to the first newline, and what follows is
/// cut at the last fence: nothing from the last fence on is kept, and what is
/// kept is trimmed. Here the first newline after the opening fence is at `i`
/// of what follows the fence, and the last fence after the newline at `j` of
/// what follows the newline.
pub proof fn law_strip_fences_cuts_at_last_fence(s: Seq<char>, i: int, j: int)
    requires
        trim(s).len() >= 3,
        trim(s).take(3) == fence(),
        0 <= i < trim(s).skip(3).len(),
        trim(s).skip(3)[i] == '\n',
        forall|k: int| 0 <= k < i ==> #[trigger] trim(s).skip(3)[k] != '\n',
        occurs_at(trim(s).skip(3).skip(i + 1), fence(), j),
        forall|q: int| j < q ==> !#[trigger] occurs_at(trim(s).skip(3).skip(i + 1), fence(), q),
    ensures
        spec_strip_json_fences(s) == trim(trim(s).skip(3).skip(i + 1).take(j)),
{
    let rest = trim(s).skip(3);
    lemma_first_newline(rest, 0, i);
    let after_tag = rest.skip(i + 1);
    lemma_last_occurrence_at(after_tag, fence(), j, after_tag.len() - fence().len());
}

/// An answer that does not open with a fence, once trimmed, is kept whole
/// (trimmed).
pub proof fn law_unfenced_answer_is_trimmed(s: Seq<char>)
    requires
        !(trim(s).len() >= 3 && trim(s).take(3) == fence()),
    ensures
        spec_strip_json_fences(s) == trim(s),
{
}

/// A fenced answer without a closing fence keeps, trimmed, everything after
/// its opening line.
pub proof fn law_strip_fences_without_closing_fence(s: Seq<char>, i: int)
    requires
        trim(s).len() >= 3,
        trim(s).take(3) == fence(),
        0 <= i < trim(s).skip(3).len(),
        trim(s).skip(3)[i] == '\n',
        forall|k: int| 0 <= k < i ==> #[trigger] trim(s).skip(3)[k] != '\n',
        forall|q: int| !#[trigger] occurs_at(trim(s).skip(3).skip(i + 1), fence(), q),
    ensures
        spec_strip_json_fences(s) == trim(trim(s).skip(3).skip(i + 1)),
{
    let rest = trim(s).skip(3);
    lemma_first_newline(rest, 0, i);
    let after_tag = rest.skip(i + 1);
    lemma_no_occurrence(after_tag, fence(), after_tag.len() - fence().len());
}

/// Where `needle` occurs nowhere, no last occurrence is found.
proof fn lemma_no_occurrence(s: Seq<char>, needle: Seq<char>, p: int)
    requires
        forall|q: int| !#[trigger] occurs_at(s, needle, q),
    ensures
        last_occurrence_upto(s, needle, p) == None::<int>,
    decreases p + 1,
{
    if p >= 0 {
        lemma_no_occurrence(s, needle, p - 1);
    }
}

/// White space is cut only at the ends: the trimmed text is the piece of `s`
/// from `ab.0` to `ab.1`, everything before and after that piece is white
/// space, and the piece neither starts nor ends with white space.
pub proof fn law_trim_cuts_white_space_at_the_ends(s: Seq<char>) -> (ab: (int, int))
    ensures
        0 <= ab.0 <= ab.1 <= s.len(),
        trim(s) == s.subrange(ab.0, ab.1),
        forall|k: int| 0 <= k < ab.0 ==> is_white_space(#[trigger] s[k]),
        forall|k: int| ab.1 <= k < s.len() ==> is_white_space(#[trigger] s[k]),
        ab.0 < ab.1 ==> !is_white_space(s[ab.0]) && !is_white_space(s[ab.1 - 1]),
{
    let a = ws_prefix_len(s) as int;
    lemma_ws_prefix(s);
    let t = s.skip(a);
    let c = ws_suffix_len(t) as int;
    lemma_ws_suffix(t);
    let b = a + t.len() - c;
    assert(trim(s) =~= s.subrange(a, b));
    assert forall|k: int| b <= k < s.len() implies is_white_space(#[trigger] s[k]) by {
        assert(s[k] == t[k - a]);
    }
    if a < b {
        assert(s[b - 1] == t[t.len() - c - 1]);
    }
    (a, b)
}

/// The white-space prefix is white space and stops before a character that
/// is not.
proof fn lemma_ws_prefix(s: Seq<char>)
    ensures
        ws_prefix_len(s) <= s.len(),
        forall|k: int| 0 <= k < ws_prefix_len(s) ==> is_white_space(#[trigger] s[k]),
        ws_prefix_len(s) < s.len() ==> !is_white_space(s[ws_prefix_len(s) as int]),
    decreases s.len(),
{
    if s.len() > 0 && is_white_space(s[0]) {
        let r = s.drop_first();
        lemma_ws_prefix(r);
        assert forall|k: int| 0 <= k < ws_prefix_len(s) implies is_white_space(#[trigger] s[k]) by {
            if k > 0 {
                assert(s[k] == r[k - 1]);
            }
        }
        if ws_prefix_len(s) < s.len() {
            assert(s[ws_prefix_len(s) as int] == r[ws_prefix_len(r) as int]);
        }
    }
}

/// The white-space suffix is white space and stops after a character that
/// is not.
proof fn lemma_ws_suffix(s: Seq<char>)
    ensures
        ws_suffix_len(s) <= s.len(),
        forall|k: int| s.len() - ws_suffix_len(s) <= k < s.len() ==> is_white_space(#[trigger] s[k]),
        ws_suffix_len(s) < s.len() ==> !is_white_space(s[s.len() - ws_suffix_len(s) - 1]),
    decreases s.len(),
{
    if s.len() > 0 && is_white_space(s.last()) {
        let r = s.drop_last();
        lemma_ws_suffix(r);
        assert forall|k: int| s.len() - ws_suffix_len(s) <= k < s.len() implies is_white_space(
            #[trigger] s[k],
        ) by {
            if k < s.len() - 1 {
                assert(s[k] == r[k]);
            }
        }
        if ws_suffix_len(s) < s.len() {
            assert(s[s.len() - ws_suffix_len(s) - 1] == r[r.len() - ws_suffix_len(r) - 1]);
        }
    }
}

} // verus!
