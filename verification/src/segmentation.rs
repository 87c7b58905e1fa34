//! The segmenter: a forward dynamic program that partitions a pinyin
//! stream into dictionary syllables. Confidence is a fixed-point score
//! scaled by 1000 (1000 stands for 1.0); each extension multiplies the
//! running confidence by a per-segment factor with truncating division.
//! Results come out deduplicated by their joined segments, sorted by
//! non-increasing confidence, and capped at ten. The truncating division
//! means the confidence of a very long, weak reading can reach exactly
//! zero; it never goes below it.

use vstd::prelude::*;
use vstd::string::*;
use crate::strutil::{str_eq, clone_string_vec, string_from_chars};
use crate::dict::{YiIME, is_ambiguous};

verus! {

/// One way of reading the input: the syllables, the Yi characters each
/// syllable can stand for (parallel to `segments`), and the confidence.
pub struct SegmentResult {
    pub segments: Vec<String>,
    pub yi_chars: Vec<Vec<String>>,
    pub confidence: u64,
}

/// The mathematical shadow of a `SegmentResult`.
pub struct SegResultV {
    pub segments: Seq<Seq<char>>,
    pub yi_chars: Seq<Seq<Seq<char>>>,
    pub confidence: int,
}

impl View for SegmentResult {
    type V = SegResultV;

    open spec fn view(&self) -> SegResultV {
        SegResultV {
            segments: self.segments.deep_view(),
            yi_chars: self.yi_chars.deep_view(),
            confidence: self.confidence as int,
        }
    }
}

impl DeepView for SegmentResult {
    type V = SegResultV;

    open spec fn deep_view(&self) -> SegResultV {
        self.view()
    }
}

/// A segment holds an ambiguous letter.
pub open spec fn has_ambiguous(s: Seq<char>) -> bool {
    exists|i: int| 0 <= i < s.len() && is_ambiguous(s[i])
}

/// The per-segment confidence factor: a base score by length (1 is weak,
/// 2 is strong, then tapering), reduced by a fifth when the segment holds
/// an ambiguous letter.
pub open spec fn seg_confidence(s: Seq<char>) -> int {
    let base: int = if s.len() == 1 {
        600
    } else if s.len() == 2 {
        900
    } else if s.len() == 3 {
        800
    } else {
        700
    };
    if has_ambiguous(s) {
        base * 800 / 1000
    } else {
        base
    }
}

/// The confidence factor of an ambiguous two-way split: the mean of the
/// halves' factors, reduced to seven tenths.
pub open spec fn ambi_confidence(l: Seq<char>, r: Seq<char>) -> int {
    (seg_confidence(l) + seg_confidence(r)) / 2 * 700 / 1000
}

/// The result that consumes nothing: no segments, confidence 1.0.
pub open spec fn empty_result() -> SegResultV {
    SegResultV { segments: Seq::empty(), yi_chars: Seq::empty(), confidence: 1000 }
}

/// `prev` extended by one syllable.
pub open spec fn spec_extend(prev: SegResultV, seg: Seq<char>, cs: Seq<Seq<char>>, conf: int) -> SegResultV {
    SegResultV {
        segments: prev.segments.push(seg),
        yi_chars: prev.yi_chars.push(cs),
        confidence: prev.confidence * conf / 1000,
    }
}

/// `prev` extended by an ambiguous split into two syllables, under one
/// combined confidence factor.
pub open spec fn spec_extend2(
    prev: SegResultV,
    l: Seq<char>,
    r: Seq<char>,
    lcs: Seq<Seq<char>>,
    rcs: Seq<Seq<char>>,
    conf: int,
) -> SegResultV {
    SegResultV {
        segments: prev.segments + seq![l, r],
        yi_chars: prev.yi_chars + seq![lcs, rcs],
        confidence: prev.confidence * conf / 1000,
    }
}

/// Every result of `prevs` extended by the syllable `seg`, when `seg` is
/// in the dictionary; nothing otherwise.
pub open spec fn plain_exts(d: YiIME, prevs: Seq<SegResultV>, seg: Seq<char>) -> Seq<SegResultV> {
    if d.spec_has_syllable(seg) {
        Seq::new(
            prevs.len(),
            |k: int| spec_extend(prevs[k], seg, d.spec_lookup(seg), seg_confidence(seg)),
        )
    } else {
        Seq::empty()
    }
}

/// The ambiguous-split extensions of `prevs` over `seg`, for split points
/// from `pos` up: where both halves are syllables, every result of
/// `prevs` extended by the pair.
pub open spec fn ambi_exts_from(
    d: YiIME,
    prevs: Seq<SegResultV>,
    seg: Seq<char>,
    pos: int,
) -> Seq<SegResultV>
    decreases seg.len() - pos,
{
    if pos < 1 || pos >= seg.len() {
        Seq::empty()
    } else {
        let l = seg.take(pos);
        let r = seg.skip(pos);
        let here = if d.spec_has_syllable(l) && d.spec_has_syllable(r) {
            Seq::new(
                prevs.len(),
                |k: int| spec_extend2(
                    prevs[k],
                    l,
                    r,
                    d.spec_lookup(l),
                    d.spec_lookup(r),
                    ambi_confidence(l, r),
                ),
            )
        } else {
            Seq::empty()
        };
        here + ambi_exts_from(d, prevs, seg, pos + 1)
    }
}

/// What one dynamic-programming cell contributes: the plain extension of
/// `prevs` over the whole slice, then (for slices of two or more letters
/// holding an ambiguous letter) the ambiguous splits.
pub open spec fn cell_exts(d: YiIME, prevs: Seq<SegResultV>, seg: Seq<char>) -> Seq<SegResultV> {
    let ambi = if seg.len() >= 2 && has_ambiguous(seg) {
        ambi_exts_from(d, prevs, seg, 1)
    } else {
        Seq::empty()
    };
    plain_exts(d, prevs, seg) + ambi
}

/// The results that consume exactly the first `i` letters of `input`:
/// the base case consumes nothing with confidence 1.0; level `i` collects
/// the contributions of every earlier level `j`, extended over
/// `input[j..i]`.
pub open spec fn spec_dp(d: YiIME, input: Seq<char>, i: int) -> Seq<SegResultV>
    decreases i, 1int, 0int,
{
    if i <= 0 {
        seq![empty_result()]
    } else {
        spec_level(d, input, i, 0)
    }
}

/// The contributions of levels `j, j+1, …, i-1` to level `i`.
pub open spec fn spec_level(d: YiIME, input: Seq<char>, i: int, j: int) -> Seq<SegResultV>
    decreases i, 0int, i - j,
{
    if !(0 <= j < i && i <= input.len()) {
        Seq::empty()
    } else {
        cell_exts(d, spec_dp(d, input, j), input.subrange(j, i)) + spec_level(d, input, i, j + 1)
    }
}

impl YiIME {
    /// The per-segment confidence factor, scaled by 1000.
    pub fn calculate_segment_confidence(segment: &str) -> (r: u64)
        ensures
            r == seg_confidence(segment@),
            0 < r <= 1000,
    {
        let n: usize = segment.unicode_len();
        let base: u64 = if n == 1 {
            600
        } else if n == 2 {
            900
        } else if n == 3 {
            800
        } else {
            700
        };
        let mut i: usize = 0;
        let mut ambiguous: bool = false;
        while i < n
            invariant
                i <= n,
                n == segment@.len(),
                ambiguous == exists|k: int| 0 <= k < i && is_ambiguous(segment@[k]),
            decreases n - i,
        {
            let c: char = segment.get_char(i);
            if Self::is_ambiguous_char(c) {
                ambiguous = true;
            }
            i += 1;
        }
        if ambiguous {
            base * 800 / 1000
        } else {
            base
        }
    }

    /// The combined factor of an ambiguous split, scaled by 1000.
    pub fn calculate_ambiguous_confidence(left: &str, right: &str) -> (r: u64)
        ensures
            r == ambi_confidence(left@, right@),
            r <= 1000,
    {
        let lc: u64 = Self::calculate_segment_confidence(left);
        let rc: u64 = Self::calculate_segment_confidence(right);
        (lc + rc) / 2 * 700 / 1000
    }
}

/// A deep copy of one segment result.
pub fn clone_result(r: &SegmentResult) -> (out: SegmentResult)
    ensures
        out@ == r@,
{
    let mut yi: Vec<Vec<String>> = Vec::new();
    let mut i: usize = 0;
    while i < r.yi_chars.len()
        invariant
            i <= r.yi_chars@.len(),
            yi@.len() == i,
            forall|k: int| 0 <= k < i ==> yi.deep_view()[k] == r.yi_chars.deep_view()[k],
        decreases r.yi_chars@.len() - i,
    {
        let ghost yi0 = yi;
        yi.push(clone_string_vec(&r.yi_chars[i]));
        proof {
            assert forall|k: int| 0 <= k < i + 1 implies yi.deep_view()[k]
                == r.yi_chars.deep_view()[k] by {
                if k < i {
                    assert(yi@[k] == yi0@[k]);
                    assert(yi0.deep_view()[k] == r.yi_chars.deep_view()[k]);
                } else {
                    assert(yi.deep_view()[k] == r.yi_chars.deep_view()[k]);
                }
            }
        }
        i += 1;
    }
    let out = SegmentResult {
        segments: clone_string_vec(&r.segments),
        yi_chars: yi,
        confidence: r.confidence,
    };
    proof {
        assert(out.yi_chars.deep_view() =~= r.yi_chars.deep_view());
    }
    out
}

/// `prev` extended by the syllable `seg` mapping to `cs`.
fn extend_result(prev: &SegmentResult, seg: &str, cs: &Vec<String>, conf: u64) -> (out: SegmentResult)
    requires
        prev@.confidence <= 1000,
        conf <= 1000,
    ensures
        out@ == spec_extend(prev@, seg@, cs.deep_view(), conf as int),
        out@.confidence <= 1000,
{
    let mut segments = clone_string_vec(&prev.segments);
    segments.push(String::from_str(seg));
    let base = clone_result(prev);
    let mut yi = base.yi_chars;
    yi.push(clone_string_vec(cs));
    proof {
        vstd::arithmetic::mul::lemma_mul_upper_bound(
            prev.confidence as int,
            1000,
            conf as int,
            1000,
        );
    }
    let c: u64 = prev.confidence * conf / 1000;
    let out = SegmentResult { segments, yi_chars: yi, confidence: c };
    proof {
        assert(out.segments.deep_view() =~= prev@.segments.push(seg@));
        assert(out.yi_chars.deep_view() =~= prev@.yi_chars.push(cs.deep_view()));
    }
    out
}

/// `prev` extended by the split pair `l`, `r`.
fn extend_result2(
    prev: &SegmentResult,
    l: &str,
    r: &str,
    lcs: &Vec<String>,
    rcs: &Vec<String>,
    conf: u64,
) -> (out: SegmentResult)
    requires
        prev@.confidence <= 1000,
        conf <= 1000,
    ensures
        out@ == spec_extend2(prev@, l@, r@, lcs.deep_view(), rcs.deep_view(), conf as int),
        out@.confidence <= 1000,
{
    let mut segments = clone_string_vec(&prev.segments);
    segments.push(String::from_str(l));
    segments.push(String::from_str(r));
    let base = clone_result(prev);
    let mut yi = base.yi_chars;
    yi.push(clone_string_vec(lcs));
    yi.push(clone_string_vec(rcs));
    proof {
        vstd::arithmetic::mul::lemma_mul_upper_bound(
            prev.confidence as int,
            1000,
            conf as int,
            1000,
        );
    }
    let c: u64 = prev.confidence * conf / 1000;
    let out = SegmentResult { segments, yi_chars: yi, confidence: c };
    proof {
        assert(out.segments.deep_view() =~= prev@.segments + seq![l@, r@]);
        assert(out.yi_chars.deep_view() =~= prev@.yi_chars + seq![lcs.deep_view(), rcs.deep_view()]);
    }
    out
}

/// Whether the string holds an ambiguous letter.
pub fn has_ambiguous_str(s: &str) -> (r: bool)
    ensures
        r == has_ambiguous(s@),
{
    let n: usize = s.unicode_len();
    let mut i: usize = 0;
    let mut found: bool = false;
    while i < n
        invariant
            i <= n,
            n == s@.len(),
            found == exists|k: int| 0 <= k < i && is_ambiguous(s@[k]),
        decreases n - i,
    {
        let c: char = s.get_char(i);
        if YiIME::is_ambiguous_char(c) {
            found = true;
        }
        i += 1;
    }
    found
}

/// What the dynamic program hands back for a whole input: its top level,
/// or nothing for an empty input.
pub open spec fn spec_dp_out(d: YiIME, input: Seq<char>) -> Seq<SegResultV> {
    if input.len() == 0 {
        Seq::empty()
    } else {
        spec_dp(d, input, input.len() as int)
    }
}

/// Appends to `out` the plain extensions of every result of `prevs` by
/// the syllable `seg`.
#[verifier::loop_isolation(false)]
fn append_plain_exts(
    d: &YiIME,
    prevs: &Vec<SegmentResult>,
    seg: &str,
    cs: &Vec<String>,
    conf: u64,
    out: &mut Vec<SegmentResult>,
)
    requires
        results_wf(prevs.deep_view()),
        d.spec_has_syllable(seg@),
        cs.deep_view() == d.spec_lookup(seg@),
        conf == seg_confidence(seg@),
        0 <= conf <= 1000,
    ensures
        final(out).deep_view() == old(out).deep_view() + plain_exts(*d, prevs.deep_view(), seg@),
{
    let ghost base = out.deep_view();
    let ghost prevs_v = prevs.deep_view();
    let ghost f: spec_fn(int) -> SegResultV = |t: int| spec_extend(
        prevs_v[t],
        seg@,
        d.spec_lookup(seg@),
        seg_confidence(seg@),
    );
    let mut k: usize = 0;
    proof {
        assert(out.deep_view() =~= base + Seq::new(0, f));
    }
    while k < prevs.len()
        invariant
            0 <= k <= prevs@.len(),
            prevs_v == prevs.deep_view(),
            results_wf(prevs_v),
            cs.deep_view() == d.spec_lookup(seg@),
            conf == seg_confidence(seg@),
            0 <= conf <= 1000,
            out.deep_view() =~= base + Seq::new(k as nat, f),
        decreases prevs@.len() - k,
    {
        proof {
            assert(prevs@[k as int]@ == prevs_v[k as int]);
        }
        let ghost before = out.deep_view();
        out.push(extend_result(&prevs[k], seg, cs, conf));
        proof {
            assert(out@.last()@ == f(k as int));
            assert(out.deep_view() =~= before.push(f(k as int)));
            assert(Seq::new((k + 1) as nat, f) =~= Seq::new(k as nat, f).push(f(k as int)));
            assert(out.deep_view() =~= base + Seq::new((k + 1) as nat, f));
        }
        k += 1;
    }
    proof {
        assert(out.deep_view() =~= base + plain_exts(*d, prevs_v, seg@));
    }
}

/// Appends to `out` the split extensions of every result of `prevs` by
/// the syllable pair `l`, `r`.
#[verifier::loop_isolation(false)]
fn append_split_exts(
    d: &YiIME,
    prevs: &Vec<SegmentResult>,
    l: &str,
    r: &str,
    lcs: &Vec<String>,
    rcs: &Vec<String>,
    conf: u64,
    out: &mut Vec<SegmentResult>,
)
    requires
        results_wf(prevs.deep_view()),
        lcs.deep_view() == d.spec_lookup(l@),
        rcs.deep_view() == d.spec_lookup(r@),
        conf == ambi_confidence(l@, r@),
        0 <= conf <= 1000,
    ensures
        final(out).deep_view() == old(out).deep_view() + Seq::new(
            prevs.deep_view().len(),
            |t: int| spec_extend2(
                prevs.deep_view()[t],
                l@,
                r@,
                d.spec_lookup(l@),
                d.spec_lookup(r@),
                ambi_confidence(l@, r@),
            ),
        ),
{
    let ghost base = out.deep_view();
    let ghost prevs_v = prevs.deep_view();
    let ghost f: spec_fn(int) -> SegResultV = |t: int| spec_extend2(
        prevs_v[t],
        l@,
        r@,
        d.spec_lookup(l@),
        d.spec_lookup(r@),
        ambi_confidence(l@, r@),
    );
    let mut k: usize = 0;
    proof {
        assert(out.deep_view() =~= base + Seq::new(0, f));
    }
    while k < prevs.len()
        invariant
            0 <= k <= prevs@.len(),
            prevs_v == prevs.deep_view(),
            results_wf(prevs_v),
            lcs.deep_view() == d.spec_lookup(l@),
            rcs.deep_view() == d.spec_lookup(r@),
            conf == ambi_confidence(l@, r@),
            0 <= conf <= 1000,
            out.deep_view() =~= base + Seq::new(k as nat, f),
        decreases prevs@.len() - k,
    {
        proof {
            assert(prevs@[k as int]@ == prevs_v[k as int]);
        }
        let ghost before = out.deep_view();
        out.push(extend_result2(&prevs[k], l, r, lcs, rcs, conf));
        proof {
            assert(out@.last()@ == f(k as int));
            assert(out.deep_view() =~= before.push(f(k as int)));
            assert(Seq::new((k + 1) as nat, f) =~= Seq::new(k as nat, f).push(f(k as int)));
            assert(out.deep_view() =~= base + Seq::new((k + 1) as nat, f));
        }
        k += 1;
    }
    proof {
        assert(out.deep_view() =~= base + Seq::new(prevs_v.len(), f));
    }
}

/// Appends to `out` every ambiguous-split extension of `prevs` over `seg`.
#[verifier::loop_isolation(false)]
fn append_ambi_exts(d: &YiIME, prevs: &Vec<SegmentResult>, seg: &str, out: &mut Vec<SegmentResult>)
    requires
        d.wf(),
        results_wf(prevs.deep_view()),
        seg@.len() >= 2,
        seg@.len() < usize::MAX,
    ensures
        final(out).deep_view() == old(out).deep_view() + ambi_exts_from(
            *d,
            prevs.deep_view(),
            seg@,
            1,
        ),
{
    let ghost prevs_v = prevs.deep_view();
    let ghost base = out.deep_view();
    let seg_len: usize = seg.unicode_len();
    let mut split: usize = 1;
    while split < seg_len
        invariant
            1 <= split <= seg_len,
            out.deep_view() + ambi_exts_from(*d, prevs_v, seg@, split as int) =~= base
                + ambi_exts_from(*d, prevs_v, seg@, 1),
        decreases seg_len - split,
    {
        let ghost before_split = out.deep_view();
        let l: &str = seg.substring_char(0, split);
        let r: &str = seg.substring_char(split, seg_len);
        proof {
            assert(l@ =~= seg@.take(split as int));
            assert(r@ =~= seg@.skip(split as int));
        }
        if d.contains_syllable(l) && d.contains_syllable(r) {
            let lcs: Vec<String> = d.lookup(l);
            let rcs: Vec<String> = d.lookup(r);
            let conf: u64 = YiIME::calculate_ambiguous_confidence(l, r);
            append_split_exts(d, prevs, l, r, &lcs, &rcs, conf, out);
            proof {
                assert(ambi_exts_from(*d, prevs_v, seg@, split as int) =~= Seq::new(
                    prevs_v.len(),
                    |t: int| spec_extend2(
                        prevs_v[t],
                        seg@.take(split as int),
                        seg@.skip(split as int),
                        d.spec_lookup(seg@.take(split as int)),
                        d.spec_lookup(seg@.skip(split as int)),
                        ambi_confidence(seg@.take(split as int), seg@.skip(split as int)),
                    ),
                ) + ambi_exts_from(*d, prevs_v, seg@, split as int + 1));
                assert(out.deep_view() + ambi_exts_from(*d, prevs_v, seg@, split as int + 1)
                    =~= base + ambi_exts_from(*d, prevs_v, seg@, 1));
            }
        } else {
            proof {
                assert(ambi_exts_from(*d, prevs_v, seg@, split as int) =~= ambi_exts_from(
                    *d,
                    prevs_v,
                    seg@,
                    split as int + 1,
                ));
            }
        }
        split += 1;
    }
    proof {
        assert(ambi_exts_from(*d, prevs_v, seg@, seg_len as int) =~= Seq::<SegResultV>::empty());
        assert(out.deep_view() =~= base + ambi_exts_from(*d, prevs_v, seg@, 1));
    }
}

/// Builds level `i` of the dynamic program from the earlier levels.
#[verifier::loop_isolation(false)]
fn build_level(d: &YiIME, levels: &Vec<Vec<SegmentResult>>, input: &str, i: usize) -> (out: Vec<
    SegmentResult,
>)
    requires
        d.wf(),
        1 <= i <= input@.len(),
        input@.len() < usize::MAX,
        levels.deep_view().len() == i,
        forall|t: int| 0 <= t < i ==> levels.deep_view()[t] == spec_dp(*d, input@, t),
    ensures
        out.deep_view() == spec_dp(*d, input@, i as int),
{
    let mut out: Vec<SegmentResult> = Vec::new();
    let mut j: usize = 0;
    proof {
        assert(out.deep_view() + spec_level(*d, input@, i as int, 0) =~= spec_level(
            *d,
            input@,
            i as int,
            0,
        ));
    }
    while j < i
        invariant
            0 <= j <= i,
            out.deep_view() + spec_level(*d, input@, i as int, j as int) =~= spec_level(
                *d,
                input@,
                i as int,
                0,
            ),
        decreases i - j,
    {
        let ghost prevs_v = spec_dp(*d, input@, j as int);
        let ghost before_cell = out.deep_view();
        let seg: &str = input.substring_char(j, i);
        proof {
            assert(seg@ == input@.subrange(j as int, i as int));
            assert(levels.deep_view()[j as int] == levels@[j as int].deep_view());
            lemma_dp_results_wf(*d, input@, j as int);
        }
        let prevs: &Vec<SegmentResult> = &levels[j];
        let seg_len: usize = i - j;
        if d.contains_syllable(seg) {
            let cs: Vec<String> = d.lookup(seg);
            let conf: u64 = YiIME::calculate_segment_confidence(seg);
            append_plain_exts(d, prevs, seg, &cs, conf, &mut out);
        } else {
            proof {
                assert(plain_exts(*d, prevs_v, seg@) =~= Seq::<SegResultV>::empty());
                assert(out.deep_view() =~= before_cell + plain_exts(*d, prevs_v, seg@));
            }
        }
        let ghost after_plain = out.deep_view();
        proof {
            assert(after_plain =~= before_cell + plain_exts(*d, prevs_v, seg@));
        }
        if seg_len >= 2 && has_ambiguous_str(seg) {
            append_ambi_exts(d, prevs, seg, &mut out);
            proof {
                assert(out.deep_view() =~= before_cell + cell_exts(*d, prevs_v, seg@));
            }
        } else {
            proof {
                assert(cell_exts(*d, prevs_v, seg@) =~= plain_exts(*d, prevs_v, seg@));
                assert(out.deep_view() =~= before_cell + cell_exts(*d, prevs_v, seg@));
            }
        }
        proof {
            assert(spec_level(*d, input@, i as int, j as int) == cell_exts(
                *d,
                spec_dp(*d, input@, j as int),
                input@.subrange(j as int, i as int),
            ) + spec_level(*d, input@, i as int, j as int + 1));
            assert(out.deep_view() + spec_level(*d, input@, i as int, j as int + 1) =~= spec_level(
                *d,
                input@,
                i as int,
                0,
            ));
        }
        j += 1;
    }
    proof {
        assert(spec_level(*d, input@, i as int, i as int) =~= Seq::<SegResultV>::empty());
        assert(out.deep_view() =~= spec_level(*d, input@, i as int, 0));
        assert(out.deep_view() == spec_dp(*d, input@, i as int));
    }
    out
}

impl YiIME {
    /// The forward dynamic program: every way of reading the whole input
    /// as dictionary syllables, including ambiguous-split readings, as
    /// `spec_dp` states level by level.
    #[verifier::loop_isolation(false)]
    pub fn dp_segment(&self, input: &str) -> (out: Vec<SegmentResult>)
        requires
            self.wf(),
            input@.len() < usize::MAX,
        ensures
            out.deep_view() == spec_dp_out(*self, input@),
    {
        let n: usize = input.unicode_len();
        if n == 0 {
            let out: Vec<SegmentResult> = Vec::new();
            proof {
                assert(out.deep_view() =~= Seq::<SegResultV>::empty());
            }
            return out;
        }
        let mut dp: Vec<Vec<SegmentResult>> = Vec::new();
        let mut first: Vec<SegmentResult> = Vec::new();
        first.push(SegmentResult { segments: Vec::new(), yi_chars: Vec::new(), confidence: 1000 });
        proof {
            assert(first@[0]@.segments =~= empty_result().segments);
            assert(first@[0]@.yi_chars =~= empty_result().yi_chars);
            assert(first@[0]@ == empty_result());
            assert(first.deep_view() =~= seq![empty_result()]);
        }
        dp.push(first);
        proof {
            assert(dp.deep_view() =~= seq![seq![empty_result()]]);
            assert(dp.deep_view()[0] == spec_dp(*self, input@, 0));
        }
        let mut i: usize = 1;
        while i <= n
            invariant
                1 <= i <= n + 1,
                dp.deep_view().len() == i,
                forall|t: int| 0 <= t < i ==> dp.deep_view()[t] == spec_dp(*self, input@, t),
            decreases n + 1 - i,
    {
            let level = build_level(self, &dp, input, i);
            let ghost dp0 = dp.deep_view();
            let ghost dp0v = dp@;
            dp.push(level);
            proof {
                assert forall|t: int| 0 <= t < i + 1 implies dp.deep_view()[t] == spec_dp(
                    *self,
                    input@,
                    t,
                ) by {
                    if t < i {
                        assert(dp@[t] == dp0v[t]);
                        assert(dp0[t] == dp0v[t].deep_view());
                        assert(dp.deep_view()[t] == dp@[t].deep_view());
                    } else {
                        assert(dp.deep_view()[t] == level.deep_view());
                    }
                }
            }
            i += 1;
        }
        let ghost dpfull = dp@;
        let ghost dpdeep = dp.deep_view();
        match dp.pop() {
            Some(level) => {
                proof {
                    assert(level == dpfull.last());
                    assert(dpdeep[n as int] == dpfull[n as int].deep_view());
                    assert(level.deep_view() == spec_dp(*self, input@, n as int));
                }
                level
            },
            None => Vec::new(),
        }
    }
}

/// Every level of the dynamic program is well formed: confidences stay in
/// (0, 1000] of the scale and the two parallel sequences agree in length.
pub open spec fn results_wf(rs: Seq<SegResultV>) -> bool {
    forall|k: int|
        0 <= k < rs.len() ==> 0 <= #[trigger] rs[k].confidence <= 1000 && rs[k].segments.len()
            == rs[k].yi_chars.len()
}

pub proof fn lemma_dp_results_wf(d: YiIME, input: Seq<char>, i: int)
    ensures
        results_wf(spec_dp(d, input, i)),
    decreases i, 1int, 0int,
{
    if i <= 0 {
    } else {
        lemma_level_results_wf(d, input, i, 0);
    }
}

proof fn lemma_level_results_wf(d: YiIME, input: Seq<char>, i: int, j: int)
    requires
        i >= 1,
    ensures
        results_wf(spec_level(d, input, i, j)),
    decreases i, 0int, if i - j >= 0 { i - j } else { 0int },
{
    if !(0 <= j < i && i <= input.len()) {
    } else {
        lemma_dp_results_wf(d, input, j);
        lemma_level_results_wf(d, input, i, j + 1);
        let prevs = spec_dp(d, input, j);
        let seg = input.subrange(j, i);
        lemma_cell_results_wf(d, prevs, seg);
        let level = spec_level(d, input, i, j);
        assert forall|k: int|
            0 <= k < level.len() implies 0 <= #[trigger] level[k].confidence <= 1000
            && level[k].segments.len() == level[k].yi_chars.len() by {
            let cell = cell_exts(d, prevs, seg);
            if k < cell.len() {
                assert(level[k] == cell[k]);
            } else {
                assert(level[k] == spec_level(d, input, i, j + 1)[k - cell.len()]);
            }
        }
    }
}

proof fn lemma_cell_results_wf(d: YiIME, prevs: Seq<SegResultV>, seg: Seq<char>)
    requires
        results_wf(prevs),
    ensures
        results_wf(cell_exts(d, prevs, seg)),
{
    let plain = plain_exts(d, prevs, seg);
    assert forall|k: int|
        0 <= k < plain.len() implies 0 <= #[trigger] plain[k].confidence <= 1000
        && plain[k].segments.len() == plain[k].yi_chars.len() by {
        assert(prevs[k].confidence <= 1000);
        lemma_conf_step_bounds(prevs[k].confidence, seg_confidence(seg));
    }
    lemma_ambi_results_wf(d, prevs, seg, 1);
    let cell = cell_exts(d, prevs, seg);
    assert forall|k: int|
        0 <= k < cell.len() implies 0 <= #[trigger] cell[k].confidence <= 1000
        && cell[k].segments.len() == cell[k].yi_chars.len() by {
        if k < plain.len() {
            assert(cell[k] == plain[k]);
        } else {
            let ambi = ambi_exts_from(d, prevs, seg, 1);
            assert(cell[k] == ambi[k - plain.len()]);
            assert(results_wf(ambi));
        }
    }
}

proof fn lemma_ambi_results_wf(d: YiIME, prevs: Seq<SegResultV>, seg: Seq<char>, pos: int)
    requires
        results_wf(prevs),
    ensures
        results_wf(ambi_exts_from(d, prevs, seg, pos)),
    decreases seg.len() - pos,
{
    if pos < 1 || pos >= seg.len() {
    } else {
        lemma_ambi_results_wf(d, prevs, seg, pos + 1);
        let whole = ambi_exts_from(d, prevs, seg, pos);
        let rest = ambi_exts_from(d, prevs, seg, pos + 1);
        assert forall|k: int|
            0 <= k < whole.len() implies 0 <= #[trigger] whole[k].confidence <= 1000
            && whole[k].segments.len() == whole[k].yi_chars.len() by {
            let l = seg.take(pos);
            let r = seg.skip(pos);
            if d.spec_has_syllable(l) && d.spec_has_syllable(r) && k < prevs.len() {
                assert(prevs[k].confidence <= 1000);
                lemma_conf_step_bounds(prevs[k].confidence, ambi_confidence(l, r));
            } else {
                assert(whole[k] == rest[k - (whole.len() - rest.len())]);
            }
        }
    }
}

/// One confidence step keeps the value in the scale.
proof fn lemma_conf_step_bounds(c: int, f: int)
    requires
        0 <= c <= 1000,
        0 <= f <= 1000,
    ensures
        0 <= c * f / 1000 <= 1000,
{
    vstd::arithmetic::mul::lemma_mul_upper_bound(c, 1000, f, 1000);
    vstd::arithmetic::mul::lemma_mul_nonnegative(c, f);
}

/// The segments joined by `-`: the deduplication key.
pub open spec fn join_key(segs: Seq<Seq<char>>) -> Seq<char>
    decreases segs.len(),
{
    if segs.len() == 0 {
        Seq::empty()
    } else if segs.len() == 1 {
        segs[0]
    } else {
        segs[0] + seq!['-'] + join_key(segs.skip(1))
    }
}

/// Appending one segment appends `-` and the segment to the key.
pub proof fn lemma_join_push(segs: Seq<Seq<char>>, x: Seq<char>)
    ensures
        join_key(segs.push(x)) == if segs.len() == 0 {
            x
        } else {
            join_key(segs) + seq!['-'] + x
        },
    decreases segs.len(),
{
    let p = segs.push(x);
    if segs.len() == 0 {
        assert(p[0] == x);
    } else {
        assert(p[0] == segs[0]);
        assert(p.skip(1) =~= segs.skip(1).push(x));
        lemma_join_push(segs.skip(1), x);
        if segs.len() == 1 {
            assert(segs.skip(1).len() == 0);
            assert(join_key(p) == p[0] + seq!['-'] + join_key(p.skip(1)));
        } else {
            assert(join_key(segs) == segs[0] + seq!['-'] + join_key(segs.skip(1)));
            assert((segs[0] + seq!['-'] + (join_key(segs.skip(1)) + seq!['-'] + x)) =~= (segs[0]
                + seq!['-'] + join_key(segs.skip(1))) + seq!['-'] + x);
        }
    }
}

/// The joined segments of a result, as a string.
pub fn join_segments(segs: &Vec<String>) -> (r: String)
    ensures
        r@ == join_key(segs.deep_view()),
{
    let ghost sv = segs.deep_view();
    let mut r: String = String::new();
    let mut i: usize = 0;
    proof {
        assert(sv.take(0) =~= Seq::<Seq<char>>::empty());
    }
    while i < segs.len()
        invariant
            0 <= i <= segs@.len(),
            sv == segs.deep_view(),
            r@ == join_key(sv.take(i as int)),
        decreases segs@.len() - i,
    {
        if i > 0 {
            r.push('-');
        }
        r.append(segs[i].as_str());
        proof {
            assert(segs@[i as int]@ == sv[i as int]);
            assert(sv.take(i as int + 1).drop_last() =~= sv.take(i as int));
            assert(sv.take(i as int + 1) =~= sv.take(i as int).push(sv[i as int]));
            lemma_join_push(sv.take(i as int), sv[i as int]);
            if i == 0 {
                assert(r@ =~= sv[0]);
            } else {
                assert(r@ =~= join_key(sv.take(i as int)) + seq!['-'] + sv[i as int]);
            }
        }
        i += 1;
    }
    proof {
        assert(sv.take(sv.len() as int) =~= sv);
    }
    r
}

/// Insertion into a sequence sorted by non-increasing confidence: `x` goes
/// after every result whose confidence is not lower, so results of equal
/// confidence keep their order.
pub open spec fn spec_insert_desc(s: Seq<SegResultV>, x: SegResultV) -> Seq<SegResultV>
    decreases s.len(),
{
    if s.len() == 0 {
        seq![x]
    } else if s.last().confidence < x.confidence {
        spec_insert_desc(s.drop_last(), x).push(s.last())
    } else {
        s.push(x)
    }
}

/// Stable sort by non-increasing confidence.
pub open spec fn spec_sort_desc(s: Seq<SegResultV>) -> Seq<SegResultV>
    decreases s.len(),
{
    if s.len() == 0 {
        Seq::empty()
    } else {
        spec_insert_desc(spec_sort_desc(s.drop_last()), s.last())
    }
}

proof fn lemma_insert_desc_at(s: Seq<SegResultV>, x: SegResultV, pos: int)
    requires
        0 <= pos <= s.len(),
        forall|k: int| pos <= k < s.len() ==> (#[trigger] s[k].confidence) < x.confidence,
        pos > 0 ==> !(s[pos - 1].confidence < x.confidence),
    ensures
        spec_insert_desc(s, x) =~= s.take(pos) + seq![x] + s.skip(pos),
    decreases s.len(),
{
    if s.len() == 0 {
    } else if pos == s.len() {
        assert(spec_insert_desc(s, x) == s.push(x));
    } else {
        assert(x.confidence > s[s.len() - 1].confidence);
        assert forall|k: int| pos <= k < s.drop_last().len() implies (#[trigger] s.drop_last()[k].confidence)
            < x.confidence by {
            assert(s.drop_last()[k] == s[k]);
        }
        if pos > 0 {
            assert(s.drop_last()[pos - 1] == s[pos - 1]);
        }
        lemma_insert_desc_at(s.drop_last(), x, pos);
    }
}

/// Sorts results by non-increasing confidence, stably.
pub fn sort_results_desc(results: Vec<SegmentResult>) -> (out: Vec<SegmentResult>)
    ensures
        out.deep_view() == spec_sort_desc(results.deep_view()),
{
    let ghost rv = results.deep_view();
    let mut out: Vec<SegmentResult> = Vec::new();
    let mut k: usize = 0;
    proof {
        assert(rv.take(0) =~= Seq::<SegResultV>::empty());
        assert(out.deep_view() =~= spec_sort_desc(rv.take(0)));
    }
    while k < results.len()
        invariant
            0 <= k <= results@.len(),
            rv == results.deep_view(),
            out.deep_view() == spec_sort_desc(rv.take(k as int)),
        decreases results@.len() - k,
    {
        let ghost pre_out = out.deep_view();
        let conf: u64 = results[k].confidence;
        proof {
            assert(results@[k as int]@ == rv[k as int]);
        }
        let mut pos: usize = out.len();
        while pos > 0 && out[pos - 1].confidence < conf
            invariant
                0 <= pos <= out@.len(),
                pre_out == out.deep_view(),
                conf as int == rv[k as int].confidence,
                0 <= k < rv.len(),
                forall|t: int|
                    pos <= t < out@.len() ==> (#[trigger] out.deep_view()[t].confidence) < rv[k as int].confidence,
            decreases pos,
        {
            proof {
                assert(out.deep_view()[pos - 1].confidence == out@[pos - 1]@.confidence);
            }
            pos -= 1;
        }
        proof {
            if pos > 0 {
                assert(out.deep_view()[pos - 1].confidence == out@[pos - 1]@.confidence);
            }
        }
        let entry = clone_result(&results[k]);
        out.insert(pos, entry);
        proof {
            lemma_insert_desc_at(pre_out, rv[k as int], pos as int);
            assert(out.deep_view() =~= pre_out.take(pos as int) + seq![rv[k as int]]
                + pre_out.skip(pos as int));
            assert(rv.take(k as int + 1).drop_last() =~= rv.take(k as int));
            assert(rv.take(k as int + 1).last() == rv[k as int]);
            assert(out.deep_view() =~= spec_sort_desc(rv.take(k as int + 1)));
        }
        k += 1;
    }
    proof {
        assert(rv.take(rv.len() as int) =~= rv);
    }
    out
}

/// A key occurs among the seen keys.
pub open spec fn seen_has(seen: Seq<Seq<char>>, key: Seq<char>) -> bool {
    exists|i: int| 0 <= i < seen.len() && seen[i] == key
}

/// Keeps the first result of each joined-segments key, up to `limit` in
/// all; keys already in `seen` are dropped.
pub open spec fn spec_dedup(rs: Seq<SegResultV>, seen: Seq<Seq<char>>, limit: int) -> Seq<
    SegResultV,
>
    decreases rs.len(),
{
    if rs.len() == 0 {
        Seq::empty()
    } else {
        let key = join_key(rs[0].segments);
        if !seen_has(seen, key) && limit > 0 {
            seq![rs[0]] + spec_dedup(rs.skip(1), seen.push(key), limit - 1)
        } else {
            spec_dedup(rs.skip(1), seen, limit)
        }
    }
}

/// Whether a vector of strings holds one equal to `s`.
pub fn string_vec_contains(v: &Vec<String>, s: &str) -> (r: bool)
    ensures
        r == seen_has(v.deep_view(), s@),
{
    let mut i: usize = 0;
    while i < v.len()
        invariant
            0 <= i <= v@.len(),
            forall|j: int| 0 <= j < i ==> v.deep_view()[j] != s@,
        decreases v@.len() - i,
    {
        if str_eq(v[i].as_str(), s) {
            proof {
                assert(v.deep_view()[i as int] == s@);
            }
            return true;
        }
        proof {
            assert(v.deep_view()[i as int] == v@[i as int]@);
        }
        i += 1;
    }
    false
}

impl YiIME {
    /// Drops repeated joined-segments keys, keeping the first occurrence
    /// of each, and caps the result count.
    #[verifier::loop_isolation(false)]
    pub fn deduplicate_results(&self, results: Vec<SegmentResult>, limit: usize) -> (out: Vec<
        SegmentResult,
    >)
        ensures
            out.deep_view() == spec_dedup(results.deep_view(), Seq::empty(), limit as int),
    {
        let ghost rv = results.deep_view();
        let mut out: Vec<SegmentResult> = Vec::new();
        let mut seen: Vec<String> = Vec::new();
        let mut i: usize = 0;
        proof {
            assert(rv.skip(0) =~= rv);
            assert(seen.deep_view() =~= Seq::<Seq<char>>::empty());
            assert(out.deep_view() =~= Seq::<SegResultV>::empty());
            assert(out.deep_view() + spec_dedup(rv.skip(0), seen.deep_view(), limit as int)
                =~= spec_dedup(rv, Seq::empty(), limit as int));
        }
        while i < results.len()
            invariant
                0 <= i <= results@.len(),
                out@.len() <= limit,
                out.deep_view() + spec_dedup(
                    rv.skip(i as int),
                    seen.deep_view(),
                    limit as int - out@.len(),
                ) =~= spec_dedup(rv, Seq::empty(), limit as int),
            decreases results@.len() - i,
        {
            let ghost out0 = out.deep_view();
            let ghost seen0 = seen.deep_view();
            proof {
                assert(results@[i as int]@ == rv[i as int]);
                assert(rv.skip(i as int)[0] == rv[i as int]);
                assert(rv.skip(i as int).skip(1) =~= rv.skip(i as int + 1));
            }
            let key: String = join_segments(&results[i].segments);
            proof {
                assert(key@ == join_key(rv[i as int].segments));
            }
            if out.len() < limit && !string_vec_contains(&seen, key.as_str()) {
                seen.push(key);
                out.push(clone_result(&results[i]));
                proof {
                    assert(seen.deep_view() =~= seen0.push(join_key(rv[i as int].segments)));
                    assert(out.deep_view() =~= out0.push(rv[i as int]));
                    assert(out.deep_view() + spec_dedup(
                        rv.skip(i as int + 1),
                        seen.deep_view(),
                        limit as int - out@.len(),
                    ) =~= out0 + (seq![rv[i as int]] + spec_dedup(
                        rv.skip(i as int + 1),
                        seen0.push(join_key(rv[i as int].segments)),
                        limit as int - out0.len() - 1,
                    )));
                }
            } else {
                proof {
                    assert(spec_dedup(rv.skip(i as int), seen0, limit as int - out0.len())
                        == spec_dedup(rv.skip(i as int + 1), seen0, limit as int - out0.len()));
                }
            }
            i += 1;
        }
        proof {
            assert(rv.skip(rv.len() as int).len() == 0);
            assert(out.deep_view() =~= spec_dedup(rv, Seq::empty(), limit as int));
        }
        out
    }

    /// Segments a pinyin stream: the dynamic program's readings of the
    /// whole input, sorted by non-increasing confidence, deduplicated by
    /// their joined segments, and capped at ten. An empty input, or one
    /// holding any character outside the lower-case letters, yields no
    /// results.
    pub fn segment_pinyin(&self, input: &str) -> (out: Vec<SegmentResult>)
        requires
            self.wf(),
            input@.len() < usize::MAX,
        ensures
            out.deep_view() == spec_segment_pinyin(*self, input@),
            input@.len() == 0 ==> out@.len() == 0,
            !all_lowercase(input@) ==> out@.len() == 0,
            out@.len() <= 10,
            sorted_desc(out.deep_view()),
            unique_keys(out.deep_view()),
    {
        if !all_lowercase_str(input) {
            let out: Vec<SegmentResult> = Vec::new();
            proof {
                assert(out.deep_view() =~= Seq::<SegResultV>::empty());
            }
            return out;
        }
        let results = self.dp_segment(input);
        let sorted = sort_results_desc(results);
        let out = self.deduplicate_results(sorted, 10);
        proof {
            let dpv = spec_dp_out(*self, input@);
            lemma_sort_desc_sorted(dpv);
            lemma_dedup_len(spec_sort_desc(dpv), Seq::empty(), 10);
            lemma_dedup_sorted(spec_sort_desc(dpv), Seq::empty(), 10);
            lemma_dedup_unique(spec_sort_desc(dpv), Seq::empty(), 10);
        }
        out
    }
}

/// Every character is a lower-case ASCII letter.
pub open spec fn all_lowercase(s: Seq<char>) -> bool {
    forall|i: int| 0 <= i < s.len() ==> 'a' <= #[trigger] s[i] <= 'z'
}

/// What the segmenter promises of its output: nothing for input holding a
/// character outside the letters, else the deduplicated, capped, sorted
/// readings.
pub open spec fn spec_segment_pinyin(d: YiIME, input: Seq<char>) -> Seq<SegResultV> {
    if !all_lowercase(input) {
        Seq::empty()
    } else {
        spec_dedup(spec_sort_desc(spec_dp_out(d, input)), Seq::empty(), 10)
    }
}

/// Whether the string is all lower-case ASCII letters.
pub fn all_lowercase_str(s: &str) -> (r: bool)
    ensures
        r == all_lowercase(s@),
{
    let n: usize = s.unicode_len();
    let mut i: usize = 0;
    while i < n
        invariant
            0 <= i <= n,
            n == s@.len(),
            forall|j: int| 0 <= j < i ==> 'a' <= #[trigger] s@[j] <= 'z',
        decreases n - i,
    {
        let c: char = s.get_char(i);
        if !('a' <= c && c <= 'z') {
            return false;
        }
        i += 1;
    }
    true
}

/// Confidences never increase along the sequence.
pub open spec fn sorted_desc(s: Seq<SegResultV>) -> bool {
    forall|a: int, b: int| 0 <= a <= b < s.len() ==> s[a].confidence >= s[b].confidence
}

/// No two results share a joined-segments key.
pub open spec fn unique_keys(s: Seq<SegResultV>) -> bool {
    forall|a: int, b: int|
        0 <= a < b < s.len() ==> join_key(s[a].segments) != join_key(s[b].segments)
}

proof fn lemma_insert_desc_sorted(s: Seq<SegResultV>, x: SegResultV)
    requires
        sorted_desc(s),
    ensures
        sorted_desc(spec_insert_desc(s, x)),
    decreases s.len(),
{
    let out = spec_insert_desc(s, x);
    if s.len() == 0 {
    } else if s.last().confidence < x.confidence {
        assert forall|a: int, b: int|
            0 <= a <= b < s.drop_last().len() implies s.drop_last()[a].confidence
            >= s.drop_last()[b].confidence by {
            assert(s.drop_last()[a] == s[a]);
            assert(s.drop_last()[b] == s[b]);
        }
        lemma_insert_desc_sorted(s.drop_last(), x);
        let sub = spec_insert_desc(s.drop_last(), x);
        assert forall|a: int, b: int| 0 <= a <= b < out.len() implies out[a].confidence
            >= out[b].confidence by {
            if b < sub.len() {
                assert(out[a] == sub[a]);
                assert(out[b] == sub[b]);
            } else {
                assert(out[b] == s.last());
                if a < sub.len() {
                    assert(out[a] == sub[a]);
                    lemma_insert_desc_elems(s.drop_last(), x, a);
                } else {
                    assert(out[a] == s.last());
                }
            }
        }
    } else {
        assert forall|a: int, b: int| 0 <= a <= b < out.len() implies out[a].confidence
            >= out[b].confidence by {
            if b < s.len() {
                assert(out[a] == s[a]);
                assert(out[b] == s[b]);
            } else {
                assert(out[b] == x);
                if a < s.len() {
                    assert(out[a] == s[a]);
                    assert(s[a].confidence >= s[s.len() - 1].confidence);
                } else {
                    assert(out[a] == x);
                }
            }
        }
    }
}

/// Every element of an insertion is the inserted one or one of the
/// original sequence.
proof fn lemma_insert_desc_elems(s: Seq<SegResultV>, x: SegResultV, t: int)
    requires
        0 <= t < spec_insert_desc(s, x).len(),
    ensures
        spec_insert_desc(s, x)[t] == x || exists|u: int| 0 <= u < s.len() && s[u] == #[trigger] spec_insert_desc(s, x)[t],
    decreases s.len(),
{
    let out = spec_insert_desc(s, x);
    if s.len() == 0 {
    } else if s.last().confidence < x.confidence {
        if t < out.len() - 1 {
            lemma_insert_desc_elems(s.drop_last(), x, t);
            if spec_insert_desc(s.drop_last(), x)[t] != x {
                let u = choose|u: int|
                    0 <= u < s.drop_last().len() && s.drop_last()[u] == spec_insert_desc(
                        s.drop_last(),
                        x,
                    )[t];
                assert(s[u] == out[t]);
            }
        } else {
            assert(out[t] == s.last());
            assert(s[s.len() - 1] == out[t]);
        }
    } else {
        if t < s.len() {
            assert(s[t] == out[t]);
        }
    }
}

proof fn lemma_sort_desc_sorted(s: Seq<SegResultV>)
    ensures
        sorted_desc(spec_sort_desc(s)),
    decreases s.len(),
{
    if s.len() > 0 {
        lemma_sort_desc_sorted(s.drop_last());
        lemma_insert_desc_sorted(spec_sort_desc(s.drop_last()), s.last());
    }
}

proof fn lemma_dedup_len(rs: Seq<SegResultV>, seen: Seq<Seq<char>>, limit: int)
    ensures
        spec_dedup(rs, seen, limit).len() <= if limit >= 0 {
            limit
        } else {
            0
        },
    decreases rs.len(),
{
    if rs.len() > 0 {
        let key = join_key(rs[0].segments);
        if !seen_has(seen, key) && limit > 0 {
            lemma_dedup_len(rs.skip(1), seen.push(key), limit - 1);
        } else {
            lemma_dedup_len(rs.skip(1), seen, limit);
        }
    }
}

/// Every deduplicated result is one of the originals.
proof fn lemma_dedup_elems(rs: Seq<SegResultV>, seen: Seq<Seq<char>>, limit: int, t: int)
    requires
        0 <= t < spec_dedup(rs, seen, limit).len(),
    ensures
        exists|u: int| 0 <= u < rs.len() && rs[u] == #[trigger] spec_dedup(rs, seen, limit)[t],
    decreases rs.len(),
{
    let out = spec_dedup(rs, seen, limit);
    if rs.len() > 0 {
        let key = join_key(rs[0].segments);
        if !seen_has(seen, key) && limit > 0 {
            if t == 0 {
                assert(rs[0] == out[0]);
            } else {
                lemma_dedup_elems(rs.skip(1), seen.push(key), limit - 1, t - 1);
                let u = choose|u: int|
                    0 <= u < rs.skip(1).len() && rs.skip(1)[u] == spec_dedup(
                        rs.skip(1),
                        seen.push(key),
                        limit - 1,
                    )[t - 1];
                assert(rs[u + 1] == out[t]);
            }
        } else {
            lemma_dedup_elems(rs.skip(1), seen, limit, t);
            let u = choose|u: int|
                0 <= u < rs.skip(1).len() && rs.skip(1)[u] == spec_dedup(rs.skip(1), seen, limit)[t];
            assert(rs[u + 1] == out[t]);
        }
    }
}

proof fn lemma_dedup_sorted(rs: Seq<SegResultV>, seen: Seq<Seq<char>>, limit: int)
    requires
        sorted_desc(rs),
    ensures
        sorted_desc(spec_dedup(rs, seen, limit)),
        spec_dedup(rs, seen, limit).len() > 0 && rs.len() > 0 ==> spec_dedup(
            rs,
            seen,
            limit,
        )[0].confidence <= rs[0].confidence,
    decreases rs.len(),
{
    let out = spec_dedup(rs, seen, limit);
    if rs.len() > 0 {
        assert forall|a: int, b: int|
            0 <= a <= b < rs.skip(1).len() implies rs.skip(1)[a].confidence
            >= rs.skip(1)[b].confidence by {
            assert(rs.skip(1)[a] == rs[a + 1]);
            assert(rs.skip(1)[b] == rs[b + 1]);
        }
        let key = join_key(rs[0].segments);
        if !seen_has(seen, key) && limit > 0 {
            lemma_dedup_sorted(rs.skip(1), seen.push(key), limit - 1);
            let sub = spec_dedup(rs.skip(1), seen.push(key), limit - 1);
            assert forall|a: int, b: int| 0 <= a <= b < out.len() implies out[a].confidence
                >= out[b].confidence by {
                if a == 0 {
                    if b > 0 {
                        assert(out[b] == sub[b - 1]);
                        if rs.skip(1).len() > 0 {
                            assert(sub[0].confidence >= sub[b - 1].confidence);
                            assert(rs.skip(1)[0] == rs[1]);
                            assert(rs[0].confidence >= rs[1].confidence);
                        }
                    }
                } else {
                    assert(out[a] == sub[a - 1]);
                    assert(out[b] == sub[b - 1]);
                }
            }
        } else {
            lemma_dedup_sorted(rs.skip(1), seen, limit);
            if out.len() > 0 && rs.skip(1).len() > 0 {
                assert(rs.skip(1)[0] == rs[1]);
            }
        }
    }
}

/// No deduplicated key repeats, and none is among the already-seen keys.
proof fn lemma_dedup_unique(rs: Seq<SegResultV>, seen: Seq<Seq<char>>, limit: int)
    ensures
        unique_keys(spec_dedup(rs, seen, limit)),
        forall|t: int|
            0 <= t < spec_dedup(rs, seen, limit).len() ==> !seen_has(
                seen,
                join_key(#[trigger] spec_dedup(rs, seen, limit)[t].segments),
            ),
    decreases rs.len(),
{
    let out = spec_dedup(rs, seen, limit);
    if rs.len() > 0 {
        let key = join_key(rs[0].segments);
        if !seen_has(seen, key) && limit > 0 {
            lemma_dedup_unique(rs.skip(1), seen.push(key), limit - 1);
            let sub = spec_dedup(rs.skip(1), seen.push(key), limit - 1);
            assert forall|t: int| 0 <= t < out.len() implies !seen_has(
                seen,
                join_key(#[trigger] out[t].segments),
            ) by {
                if t > 0 {
                    assert(out[t] == sub[t - 1]);
                    assert(!seen_has(seen.push(key), join_key(sub[t - 1].segments)));
                    if seen_has(seen, join_key(out[t].segments)) {
                        let w = choose|w: int|
                            0 <= w < seen.len() && seen[w] == join_key(out[t].segments);
                        assert(seen.push(key)[w] == seen[w]);
                    }
                }
            }
            assert forall|a: int, b: int| 0 <= a < b < out.len() implies join_key(out[a].segments)
                != join_key(out[b].segments) by {
                if a == 0 {
                    assert(out[b] == sub[b - 1]);
                    assert(!seen_has(seen.push(key), join_key(sub[b - 1].segments)));
                    assert(seen.push(key)[seen.len() as int] == key);
                } else {
                    assert(out[a] == sub[a - 1]);
                    assert(out[b] == sub[b - 1]);
                }
            }
        } else {
            lemma_dedup_unique(rs.skip(1), seen, limit);
        }
    }
}


/// The concatenation of a reading's segments.
pub open spec fn concat_segs(segs: Seq<Seq<char>>) -> Seq<char>
    decreases segs.len(),
{
    if segs.len() == 0 {
        Seq::empty()
    } else {
        segs[0] + concat_segs(segs.skip(1))
    }
}

proof fn lemma_concat_push(segs: Seq<Seq<char>>, x: Seq<char>)
    ensures
        concat_segs(segs.push(x)) =~= concat_segs(segs) + x,
    decreases segs.len(),
{
    let p = segs.push(x);
    if segs.len() == 0 {
        assert(p[0] == x);
        assert(p.skip(1) =~= Seq::<Seq<char>>::empty());
        assert(concat_segs(p.skip(1)) =~= Seq::<char>::empty());
    } else {
        assert(p[0] == segs[0]);
        assert(p.skip(1) =~= segs.skip(1).push(x));
        lemma_concat_push(segs.skip(1), x);
        assert(concat_segs(p) =~= segs[0] + (concat_segs(segs.skip(1)) + x));
        assert(segs[0] + (concat_segs(segs.skip(1)) + x) =~= (segs[0] + concat_segs(segs.skip(1)))
            + x);
    }
}

/// A character of one segment occurs in the concatenation.
proof fn lemma_concat_contains(segs: Seq<Seq<char>>, k: int, c: int)
    requires
        0 <= k < segs.len(),
        0 <= c < segs[k].len(),
    ensures
        concat_segs(segs).contains(segs[k][c]),
    decreases k,
{
    if k == 0 {
        assert(concat_segs(segs)[c] == segs[0][c]);
    } else {
        assert(segs.skip(1)[k - 1] == segs[k]);
        lemma_concat_contains(segs.skip(1), k - 1, c);
        let w = choose|w: int|
            0 <= w < concat_segs(segs.skip(1)).len() && concat_segs(segs.skip(1))[w] == segs[k][c];
        assert(concat_segs(segs)[segs[0].len() + w] == segs[k][c]);
    }
}

/// Some result reads the input with exactly these segments.
pub open spec fn contains_result(rs: Seq<SegResultV>, segs: Seq<Seq<char>>) -> bool {
    exists|t: int| 0 <= t < rs.len() && rs[t].segments == segs
}

/// Whatever a cell contributes is in every level tail that still covers
/// it.
proof fn lemma_level_contains(d: YiIME, input: Seq<char>, i: int, j0: int, jc: int, x: int)
    requires
        0 <= jc <= j0 < i <= input.len(),
        0 <= x < cell_exts(d, spec_dp(d, input, j0), input.subrange(j0, i)).len(),
    ensures
        exists|y: int|
            0 <= y < spec_level(d, input, i, jc).len() && #[trigger] spec_level(d, input, i, jc)[y]
                == cell_exts(d, spec_dp(d, input, j0), input.subrange(j0, i))[x],
    decreases j0 - jc,
{
    let cell = cell_exts(d, spec_dp(d, input, j0), input.subrange(j0, i));
    let lvl = spec_level(d, input, i, jc);
    if jc == j0 {
        assert(lvl[x] == cell[x]);
    } else {
        lemma_level_contains(d, input, i, j0, jc + 1, x);
        let y = choose|y: int|
            0 <= y < spec_level(d, input, i, jc + 1).len() && #[trigger] spec_level(
                d,
                input,
                i,
                jc + 1,
            )[y] == cell[x];
        let c0 = cell_exts(d, spec_dp(d, input, jc), input.subrange(jc, i));
        assert(lvl[c0.len() + y] == spec_level(d, input, i, jc + 1)[y]);
    }
}

/// Completeness of the dynamic program: every reading of the first `i`
/// letters as dictionary syllables appears at level `i`.
pub proof fn lemma_dp_complete(d: YiIME, input: Seq<char>, segs: Seq<Seq<char>>, i: int)
    requires
        1 <= i <= input.len(),
        segs.len() >= 1,
        concat_segs(segs) == input.take(i),
        forall|k: int|
            0 <= k < segs.len() ==> d.spec_has_syllable(#[trigger] segs[k]) && segs[k].len() > 0,
    ensures
        contains_result(spec_dp(d, input, i), segs),
    decreases segs.len(),
{
    let last = segs.last();
    let rest = segs.drop_last();
    assert(rest.push(last) =~= segs);
    lemma_concat_push(rest, last);
    assert(concat_segs(rest) + last == input.take(i));
    let j = i - last.len();
    assert(last.len() > 0);
    assert(concat_segs(rest).len() == j);
    assert(0 <= j < i);
    assert forall|c: int| 0 <= c < last.len() implies input.subrange(j, i)[c] == last[c] by {
        assert((concat_segs(rest) + last)[j + c] == last[c]);
        assert(input.take(i)[j + c] == input[j + c]);
        assert(input.subrange(j, i)[c] == input[j + c]);
    }
    assert(input.subrange(j, i) =~= last);
    let prevs = spec_dp(d, input, j);
    let seg = input.subrange(j, i);
    assert(seg == last);
    assert(d.spec_has_syllable(seg));
    let pl = plain_exts(d, prevs, seg);
    let cell = cell_exts(d, prevs, seg);
    if segs.len() == 1 {
        assert(rest.len() == 0);
        assert(concat_segs(rest) =~= Seq::<char>::empty());
        assert(j == 0);
        assert(prevs == seq![empty_result()]);
        assert(pl[0] == spec_extend(empty_result(), seg, d.spec_lookup(seg), seg_confidence(seg)));
        assert(pl[0].segments =~= segs);
        assert(cell[0] == pl[0]);
        lemma_level_contains(d, input, i, 0, 0, 0);
        let y = choose|y: int|
            0 <= y < spec_level(d, input, i, 0).len() && #[trigger] spec_level(d, input, i, 0)[y]
                == cell[0];
        assert(spec_dp(d, input, i)[y].segments == segs);
    } else {
        assert(rest.len() >= 1);
        assert(concat_segs(rest) == rest[0] + concat_segs(rest.skip(1)));
        assert(rest[0] == segs[0]);
        assert(rest[0].len() > 0);
        assert(j >= 1);
        assert forall|c: int| 0 <= c < j implies concat_segs(rest)[c] == input.take(j)[c] by {
            assert((concat_segs(rest) + last)[c] == concat_segs(rest)[c]);
            assert(input.take(i)[c] == input[c]);
        }
        assert(concat_segs(rest) =~= input.take(j));
        assert forall|k: int|
            0 <= k < rest.len() implies d.spec_has_syllable(#[trigger] rest[k]) && rest[k].len()
            > 0 by {
            assert(rest[k] == segs[k]);
        }
        lemma_dp_complete(d, input, rest, j);
        let t = choose|t: int| 0 <= t < prevs.len() && prevs[t].segments == rest;
        assert(pl[t] == spec_extend(prevs[t], seg, d.spec_lookup(seg), seg_confidence(seg)));
        assert(pl[t].segments == rest.push(last));
        assert(pl[t].segments == segs);
        assert(cell[t] == pl[t]);
        lemma_level_contains(d, input, i, j, 0, t);
        let y = choose|y: int|
            0 <= y < spec_level(d, input, i, 0).len() && #[trigger] spec_level(d, input, i, 0)[y]
                == cell[t];
        assert(spec_dp(d, input, i)[y].segments == segs);
    }
}

/// A reading is sound for the first `i` letters: its segments
/// concatenate to exactly those letters, each segment is a dictionary
/// syllable, and the parallel character sets are that syllable's lookup.
pub open spec fn result_sound(d: YiIME, input: Seq<char>, i: int, r: SegResultV) -> bool {
    &&& concat_segs(r.segments) == input.take(i)
    &&& r.segments.len() == r.yi_chars.len()
    &&& forall|k: int|
        0 <= k < r.segments.len() ==> d.spec_has_syllable(#[trigger] r.segments[k])
            && r.yi_chars[k] == d.spec_lookup(r.segments[k])
}

/// All readings of a sequence are sound for the first `i` letters.
pub open spec fn all_sound(d: YiIME, input: Seq<char>, i: int, rs: Seq<SegResultV>) -> bool {
    forall|t: int| 0 <= t < rs.len() ==> result_sound(d, input, i, #[trigger] rs[t])
}

proof fn lemma_ambi_sound(
    d: YiIME,
    input: Seq<char>,
    i: int,
    j: int,
    prevs: Seq<SegResultV>,
    pos: int,
)
    requires
        0 <= j < i <= input.len(),
        all_sound(d, input, j, prevs),
    ensures
        all_sound(d, input, i, ambi_exts_from(d, prevs, input.subrange(j, i), pos)),
    decreases input.subrange(j, i).len() - pos,
{
    let seg = input.subrange(j, i);
    if pos < 1 || pos >= seg.len() {
    } else {
        lemma_ambi_sound(d, input, i, j, prevs, pos + 1);
        let whole = ambi_exts_from(d, prevs, seg, pos);
        let rest = ambi_exts_from(d, prevs, seg, pos + 1);
        let l = seg.take(pos);
        let r = seg.skip(pos);
        assert forall|t: int| 0 <= t < whole.len() implies result_sound(
            d,
            input,
            i,
            #[trigger] whole[t],
        ) by {
            if d.spec_has_syllable(l) && d.spec_has_syllable(r) && t < prevs.len() {
                let ext = spec_extend2(
                    prevs[t],
                    l,
                    r,
                    d.spec_lookup(l),
                    d.spec_lookup(r),
                    ambi_confidence(l, r),
                );
                assert(whole[t] == ext);
                assert(result_sound(d, input, j, prevs[t]));
                assert(ext.segments =~= prevs[t].segments.push(l).push(r));
                lemma_concat_push(prevs[t].segments, l);
                lemma_concat_push(prevs[t].segments.push(l), r);
                assert(concat_segs(ext.segments) =~= input.take(j) + l + r);
                assert(input.take(j) + l + r =~= input.take(i));
                assert forall|k: int|
                    0 <= k < ext.segments.len() implies d.spec_has_syllable(
                    #[trigger] ext.segments[k],
                ) && ext.yi_chars[k] == d.spec_lookup(ext.segments[k]) by {
                    if k < prevs[t].segments.len() {
                        assert(ext.segments[k] == prevs[t].segments[k]);
                        assert(ext.yi_chars[k] == prevs[t].yi_chars[k]);
                    } else if k == prevs[t].segments.len() {
                        assert(ext.segments[k] == l);
                        assert(ext.yi_chars[k] == d.spec_lookup(l));
                    } else {
                        assert(ext.segments[k] == r);
                        assert(ext.yi_chars[k] == d.spec_lookup(r));
                    }
                }
            } else {
                assert(whole[t] == rest[t - (whole.len() - rest.len())]);
            }
        }
    }
}

proof fn lemma_cell_sound(d: YiIME, input: Seq<char>, i: int, j: int, prevs: Seq<SegResultV>)
    requires
        0 <= j < i <= input.len(),
        all_sound(d, input, j, prevs),
    ensures
        all_sound(d, input, i, cell_exts(d, prevs, input.subrange(j, i))),
{
    let seg = input.subrange(j, i);
    let plain = plain_exts(d, prevs, seg);
    assert forall|t: int| 0 <= t < plain.len() implies result_sound(
        d,
        input,
        i,
        #[trigger] plain[t],
    ) by {
        let ext = spec_extend(prevs[t], seg, d.spec_lookup(seg), seg_confidence(seg));
        assert(plain[t] == ext);
        assert(result_sound(d, input, j, prevs[t]));
        lemma_concat_push(prevs[t].segments, seg);
        assert(concat_segs(ext.segments) =~= input.take(j) + seg);
        assert(input.take(j) + seg =~= input.take(i));
        assert forall|k: int|
            0 <= k < ext.segments.len() implies d.spec_has_syllable(#[trigger] ext.segments[k])
            && ext.yi_chars[k] == d.spec_lookup(ext.segments[k]) by {
            if k < prevs[t].segments.len() {
                assert(ext.segments[k] == prevs[t].segments[k]);
                assert(ext.yi_chars[k] == prevs[t].yi_chars[k]);
            } else {
                assert(ext.segments[k] == seg);
                assert(ext.yi_chars[k] == d.spec_lookup(seg));
            }
        }
    }
    lemma_ambi_sound(d, input, i, j, prevs, 1);
    let cell = cell_exts(d, prevs, seg);
    assert forall|t: int| 0 <= t < cell.len() implies result_sound(
        d,
        input,
        i,
        #[trigger] cell[t],
    ) by {
        if t < plain.len() {
            assert(cell[t] == plain[t]);
        } else {
            let ambi = ambi_exts_from(d, prevs, seg, 1);
            assert(cell[t] == ambi[t - plain.len()]);
            assert(all_sound(d, input, i, ambi));
        }
    }
}

proof fn lemma_level_sound(d: YiIME, input: Seq<char>, i: int, j: int)
    requires
        i >= 1,
    ensures
        all_sound(d, input, i, spec_level(d, input, i, j)),
    decreases i, 0int, if i - j >= 0 {
        i - j
    } else {
        0int
    },
{
    if !(0 <= j < i && i <= input.len()) {
    } else {
        lemma_dp_sound(d, input, j);
        lemma_level_sound(d, input, i, j + 1);
        let prevs = spec_dp(d, input, j);
        lemma_cell_sound(d, input, i, j, prevs);
        let level = spec_level(d, input, i, j);
        let cell = cell_exts(d, prevs, input.subrange(j, i));
        assert forall|t: int| 0 <= t < level.len() implies result_sound(
            d,
            input,
            i,
            #[trigger] level[t],
        ) by {
            if t < cell.len() {
                assert(level[t] == cell[t]);
            } else {
                assert(level[t] == spec_level(d, input, i, j + 1)[t - cell.len()]);
            }
        }
    }
}

/// Soundness of the dynamic program: every reading at level `i` reads
/// exactly the first `i` letters as dictionary syllables, with the
/// parallel character sets drawn from the dictionary.
pub proof fn lemma_dp_sound(d: YiIME, input: Seq<char>, i: int)
    requires
        0 <= i,
    ensures
        all_sound(d, input, i, spec_dp(d, input, i)),
    decreases i, 1int, 0int,
{
    if i <= 0 {
        assert(concat_segs(empty_result().segments) =~= input.take(0));
        assert(result_sound(d, input, 0, empty_result()));
    } else {
        lemma_level_sound(d, input, i, 0);
    }
}

/// Soundness of the segmenter: every result it returns reads the whole
/// input as dictionary syllables, the parallel character sets are the
/// dictionary's lookups, and the segments are all the input's letters.
pub proof fn lemma_segmenter_sound(d: YiIME, input: Seq<char>)
    ensures
        forall|t: int|
            0 <= t < spec_segment_pinyin(d, input).len() ==> result_sound(
                d,
                input,
                input.len() as int,
                #[trigger] spec_segment_pinyin(d, input)[t],
            ),
{
    let out = spec_segment_pinyin(d, input);
    if all_lowercase(input) && input.len() > 0 {
        let dpv = spec_dp_out(d, input);
        let sorted = spec_sort_desc(dpv);
        lemma_dp_sound(d, input, input.len() as int);
        assert forall|t: int| 0 <= t < out.len() implies result_sound(
            d,
            input,
            input.len() as int,
            #[trigger] out[t],
        ) by {
            lemma_dedup_elems(sorted, Seq::empty(), 10, t);
            let w = choose|w: int| 0 <= w < sorted.len() && sorted[w] == out[t];
            lemma_sort_elems(dpv, w);
            let u = choose|u: int| 0 <= u < dpv.len() && dpv[u] == sorted[w];
            assert(result_sound(d, input, input.len() as int, dpv[u]));
        }
    } else if input.len() == 0 {
        let dpv = spec_dp_out(d, input);
        assert(dpv.len() == 0);
        let sorted = spec_sort_desc(dpv);
        assert(sorted.len() == 0);
        assert(out.len() == 0);
    }
}

/// A reading's segments are non-empty and dash-free.
pub open spec fn clean_segments(r: SegResultV) -> bool {
    forall|k: int|
        0 <= k < r.segments.len() ==> (#[trigger] r.segments[k]).len() > 0
            && !r.segments[k].contains('-')
}

/// All readings of a sequence are clean.
pub open spec fn all_clean(rs: Seq<SegResultV>) -> bool {
    forall|t: int| 0 <= t < rs.len() ==> clean_segments(#[trigger] rs[t])
}

/// A slice of a dash-free input is dash-free.
proof fn lemma_subrange_dash_free(input: Seq<char>, a: int, b: int)
    requires
        !input.contains('-'),
        0 <= a <= b <= input.len(),
    ensures
        !input.subrange(a, b).contains('-'),
{
    if input.subrange(a, b).contains('-') {
        let c = choose|c: int|
            0 <= c < input.subrange(a, b).len() && input.subrange(a, b)[c] == '-';
        assert(input[a + c] == '-');
    }
}

proof fn lemma_ambi_clean(d: YiIME, prevs: Seq<SegResultV>, seg: Seq<char>, pos: int)
    requires
        all_clean(prevs),
        seg.len() > 0,
        !seg.contains('-'),
    ensures
        all_clean(ambi_exts_from(d, prevs, seg, pos)),
    decreases seg.len() - pos,
{
    if pos < 1 || pos >= seg.len() {
    } else {
        lemma_ambi_clean(d, prevs, seg, pos + 1);
        let whole = ambi_exts_from(d, prevs, seg, pos);
        let rest = ambi_exts_from(d, prevs, seg, pos + 1);
        let l = seg.take(pos);
        let r = seg.skip(pos);
        assert forall|t: int| 0 <= t < whole.len() implies clean_segments(#[trigger] whole[t]) by {
            if d.spec_has_syllable(l) && d.spec_has_syllable(r) && t < prevs.len() {
                let ext = spec_extend2(
                    prevs[t],
                    l,
                    r,
                    d.spec_lookup(l),
                    d.spec_lookup(r),
                    ambi_confidence(l, r),
                );
                assert(whole[t] == ext);
                lemma_subrange_dash_free(seg, 0, pos);
                lemma_subrange_dash_free(seg, pos, seg.len() as int);
                assert forall|k: int|
                    0 <= k < ext.segments.len() implies (#[trigger] ext.segments[k]).len() > 0
                    && !ext.segments[k].contains('-') by {
                    if k < prevs[t].segments.len() {
                        assert(ext.segments[k] == prevs[t].segments[k]);
                        assert(clean_segments(prevs[t]));
                    } else if k == prevs[t].segments.len() {
                        assert(ext.segments[k] == l);
                    } else {
                        assert(ext.segments[k] == r);
                    }
                }
            } else {
                assert(whole[t] == rest[t - (whole.len() - rest.len())]);
            }
        }
    }
}

proof fn lemma_cell_clean(d: YiIME, prevs: Seq<SegResultV>, seg: Seq<char>)
    requires
        all_clean(prevs),
        seg.len() > 0,
        !seg.contains('-'),
    ensures
        all_clean(cell_exts(d, prevs, seg)),
{
    let plain = plain_exts(d, prevs, seg);
    assert forall|t: int| 0 <= t < plain.len() implies clean_segments(#[trigger] plain[t]) by {
        let ext = spec_extend(prevs[t], seg, d.spec_lookup(seg), seg_confidence(seg));
        assert(plain[t] == ext);
        assert(clean_segments(prevs[t]));
        assert forall|k: int|
            0 <= k < ext.segments.len() implies (#[trigger] ext.segments[k]).len() > 0
            && !ext.segments[k].contains('-') by {
            if k < prevs[t].segments.len() {
                assert(ext.segments[k] == prevs[t].segments[k]);
            } else {
                assert(ext.segments[k] == seg);
            }
        }
    }
    lemma_ambi_clean(d, prevs, seg, 1);
    let cell = cell_exts(d, prevs, seg);
    assert forall|t: int| 0 <= t < cell.len() implies clean_segments(#[trigger] cell[t]) by {
        if t < plain.len() {
            assert(cell[t] == plain[t]);
        } else {
            let ambi = ambi_exts_from(d, prevs, seg, 1);
            assert(cell[t] == ambi[t - plain.len()]);
            assert(all_clean(ambi));
        }
    }
}

proof fn lemma_level_clean(d: YiIME, input: Seq<char>, i: int, j: int)
    requires
        i >= 1,
        !input.contains('-'),
    ensures
        all_clean(spec_level(d, input, i, j)),
    decreases i, 0int, if i - j >= 0 {
        i - j
    } else {
        0int
    },
{
    if !(0 <= j < i && i <= input.len()) {
    } else {
        lemma_dp_clean(d, input, j);
        lemma_level_clean(d, input, i, j + 1);
        let prevs = spec_dp(d, input, j);
        let seg = input.subrange(j, i);
        lemma_subrange_dash_free(input, j, i);
        lemma_cell_clean(d, prevs, seg);
        let level = spec_level(d, input, i, j);
        let cell = cell_exts(d, prevs, seg);
        assert forall|t: int| 0 <= t < level.len() implies clean_segments(#[trigger] level[t]) by {
            if t < cell.len() {
                assert(level[t] == cell[t]);
            } else {
                assert(level[t] == spec_level(d, input, i, j + 1)[t - cell.len()]);
            }
        }
    }
}

/// Every reading the dynamic program produces is clean when the input is
/// dash-free.
pub proof fn lemma_dp_clean(d: YiIME, input: Seq<char>, i: int)
    requires
        !input.contains('-'),
    ensures
        all_clean(spec_dp(d, input, i)),
    decreases i, 1int, 0int,
{
    if i <= 0 {
        assert(clean_segments(empty_result()));
    } else {
        lemma_level_clean(d, input, i, 0);
    }
}

/// The inserted result is in the insertion.
proof fn lemma_insert_has_new(s: Seq<SegResultV>, x: SegResultV)
    ensures
        exists|y: int|
            0 <= y < spec_insert_desc(s, x).len() && #[trigger] spec_insert_desc(s, x)[y] == x,
    decreases s.len(),
{
    let out = spec_insert_desc(s, x);
    if s.len() == 0 {
        assert(out[0] == x);
    } else if s.last().confidence < x.confidence {
        lemma_insert_has_new(s.drop_last(), x);
        let y = choose|y: int|
            0 <= y < spec_insert_desc(s.drop_last(), x).len() && spec_insert_desc(
                s.drop_last(),
                x,
            )[y] == x;
        assert(out[y] == x);
    } else {
        assert(out[s.len() as int] == x);
    }
}

/// Every original result is still in the insertion.
proof fn lemma_insert_has_old(s: Seq<SegResultV>, x: SegResultV, u: int)
    requires
        0 <= u < s.len(),
    ensures
        exists|y: int|
            0 <= y < spec_insert_desc(s, x).len() && #[trigger] spec_insert_desc(s, x)[y] == s[u],
    decreases s.len(),
{
    let out = spec_insert_desc(s, x);
    if s.last().confidence < x.confidence {
        if u < s.len() - 1 {
            assert(s.drop_last()[u] == s[u]);
            lemma_insert_has_old(s.drop_last(), x, u);
            let y = choose|y: int|
                0 <= y < spec_insert_desc(s.drop_last(), x).len() && spec_insert_desc(
                    s.drop_last(),
                    x,
                )[y] == s[u];
            assert(out[y] == s[u]);
        } else {
            assert(out[out.len() - 1] == s[u]);
        }
    } else {
        assert(out[u] == s[u]);
    }
}

/// Every original result survives the sort.
proof fn lemma_sort_has(s: Seq<SegResultV>, u: int)
    requires
        0 <= u < s.len(),
    ensures
        exists|y: int|
            0 <= y < spec_sort_desc(s).len() && #[trigger] spec_sort_desc(s)[y] == s[u],
    decreases s.len(),
{
    if u < s.len() - 1 {
        assert(s.drop_last()[u] == s[u]);
        lemma_sort_has(s.drop_last(), u);
        let y = choose|y: int|
            0 <= y < spec_sort_desc(s.drop_last()).len() && #[trigger] spec_sort_desc(
                s.drop_last(),
            )[y] == s[u];
        lemma_insert_has_old(spec_sort_desc(s.drop_last()), s.last(), y);
        let y2 = choose|y2: int|
            0 <= y2 < spec_insert_desc(spec_sort_desc(s.drop_last()), s.last()).len()
                && #[trigger] spec_insert_desc(spec_sort_desc(s.drop_last()), s.last())[y2]
                == spec_sort_desc(s.drop_last())[y];
        assert(spec_sort_desc(s)[y2] == s[u]);
    } else {
        lemma_insert_has_new(spec_sort_desc(s.drop_last()), s.last());
        let y2 = choose|y2: int|
            0 <= y2 < spec_insert_desc(spec_sort_desc(s.drop_last()), s.last()).len()
                && #[trigger] spec_insert_desc(spec_sort_desc(s.drop_last()), s.last())[y2]
                == s.last();
        assert(spec_sort_desc(s)[y2] == s[u]);
    }
}

/// Every sorted result is one of the originals.
proof fn lemma_sort_elems(s: Seq<SegResultV>, y: int)
    requires
        0 <= y < spec_sort_desc(s).len(),
    ensures
        exists|u: int| 0 <= u < s.len() && s[u] == #[trigger] spec_sort_desc(s)[y],
    decreases s.len(),
{
    if s.len() > 0 {
        lemma_insert_desc_elems(spec_sort_desc(s.drop_last()), s.last(), y);
        if spec_sort_desc(s)[y] == s.last() {
            assert(s[s.len() - 1] == spec_sort_desc(s)[y]);
        } else {
            let w = choose|w: int|
                0 <= w < spec_sort_desc(s.drop_last()).len() && spec_sort_desc(s.drop_last())[w]
                    == spec_sort_desc(s)[y];
            lemma_sort_elems(s.drop_last(), w);
            let u = choose|u: int|
                0 <= u < s.drop_last().len() && s.drop_last()[u] == spec_sort_desc(
                    s.drop_last(),
                )[w];
            assert(s[u] == spec_sort_desc(s)[y]);
        }
    }
}

/// When the deduplication comes back under its cap, no unseen key was
/// dropped: each is the key of some kept result.
proof fn lemma_dedup_covers(rs: Seq<SegResultV>, seen: Seq<Seq<char>>, limit: int, u: int)
    requires
        0 <= u < rs.len(),
        !seen_has(seen, join_key(rs[u].segments)),
        spec_dedup(rs, seen, limit).len() < limit,
    ensures
        exists|y: int|
            0 <= y < spec_dedup(rs, seen, limit).len() && join_key(
                #[trigger] spec_dedup(rs, seen, limit)[y].segments,
            ) == join_key(rs[u].segments),
    decreases rs.len(),
{
    let out = spec_dedup(rs, seen, limit);
    let key0 = join_key(rs[0].segments);
    assert(limit > 0);
    if !seen_has(seen, key0) {
        let sub = spec_dedup(rs.skip(1), seen.push(key0), limit - 1);
        assert(out == seq![rs[0]] + sub);
        if u == 0 {
            assert(out[0] == rs[0]);
        } else if join_key(rs[u].segments) == key0 {
            assert(out[0] == rs[0]);
        } else {
            assert(rs.skip(1)[u - 1] == rs[u]);
            if seen_has(seen.push(key0), join_key(rs[u].segments)) {
                let w = choose|w: int|
                    0 <= w < seen.push(key0).len() && seen.push(key0)[w] == join_key(
                        rs[u].segments,
                    );
                if w < seen.len() {
                    assert(seen[w] == join_key(rs[u].segments));
                } else {
                    assert(seen.push(key0)[w] == key0);
                }
                assert(false);
            }
            assert(sub.len() < limit - 1);
            lemma_dedup_covers(rs.skip(1), seen.push(key0), limit - 1, u - 1);
            let y = choose|y: int|
                0 <= y < sub.len() && join_key(sub[y].segments) == join_key(
                    rs.skip(1)[u - 1].segments,
                );
            assert(out[y + 1] == sub[y]);
        }
    } else {
        assert(u != 0);
        assert(rs.skip(1)[u - 1] == rs[u]);
        lemma_dedup_covers(rs.skip(1), seen, limit, u - 1);
        let y = choose|y: int|
            0 <= y < spec_dedup(rs.skip(1), seen, limit).len() && join_key(
                spec_dedup(rs.skip(1), seen, limit)[y].segments,
            ) == join_key(rs.skip(1)[u - 1].segments);
        assert(out[y] == spec_dedup(rs.skip(1), seen, limit)[y]);
    }
}

/// Joined keys tell clean segmentations apart: equal keys mean equal
/// segments.
proof fn lemma_join_key_injective(s1: Seq<Seq<char>>, s2: Seq<Seq<char>>)
    requires
        s1.len() >= 1,
        s2.len() >= 1,
        forall|k: int|
            0 <= k < s1.len() ==> (#[trigger] s1[k]).len() > 0 && !s1[k].contains('-'),
        forall|k: int|
            0 <= k < s2.len() ==> (#[trigger] s2[k]).len() > 0 && !s2[k].contains('-'),
        join_key(s1) == join_key(s2),
    ensures
        s1 =~= s2,
    decreases s1.len(),
{
    let j = join_key(s1);
    if s1.len() == 1 && s2.len() == 1 {
        assert(s1[0] == j);
        assert(s2[0] == j);
        assert(s1 =~= s2);
    } else if s1.len() == 1 {
        assert(j == s2[0] + seq!['-'] + join_key(s2.skip(1)));
        assert(j[s2[0].len() as int] == '-');
        assert(s1[0] == j);
        assert(s1[0].contains('-'));
        assert(false);
    } else if s2.len() == 1 {
        assert(j == s1[0] + seq!['-'] + join_key(s1.skip(1)));
        assert(j[s1[0].len() as int] == '-');
        assert(s2[0] == j);
        assert(s2[0].contains('-'));
        assert(false);
    } else {
        assert(j == s1[0] + seq!['-'] + join_key(s1.skip(1)));
        assert(j == s2[0] + seq!['-'] + join_key(s2.skip(1)));
        let a = s1[0].len() as int;
        let b = s2[0].len() as int;
        if a < b {
            assert(j[a] == '-');
            assert(j[a] == s2[0][a]);
            assert(s2[0].contains('-'));
            assert(false);
        }
        if b < a {
            assert(j[b] == '-');
            assert(j[b] == s1[0][b]);
            assert(s1[0].contains('-'));
            assert(false);
        }
        assert(a == b);
        assert forall|c: int| 0 <= c < a implies s1[0][c] == s2[0][c] by {
            assert(j[c] == s1[0][c]);
            assert(j[c] == s2[0][c]);
        }
        assert(s1[0] =~= s2[0]);
        assert forall|c: int| 0 <= c < join_key(s1.skip(1)).len() implies join_key(s1.skip(1))[c]
            == j.skip(a + 1)[c] by {
            assert(j[a + 1 + c] == join_key(s1.skip(1))[c]);
        }
        assert(join_key(s1.skip(1)) =~= j.skip(a + 1));
        assert forall|c: int| 0 <= c < join_key(s2.skip(1)).len() implies join_key(s2.skip(1))[c]
            == j.skip(b + 1)[c] by {
            assert(j[b + 1 + c] == join_key(s2.skip(1))[c]);
        }
        assert(join_key(s2.skip(1)) =~= j.skip(b + 1));
        assert forall|k: int|
            0 <= k < s1.skip(1).len() implies (#[trigger] s1.skip(1)[k]).len() > 0 && !s1.skip(
            1,
        )[k].contains('-') by {
            assert(s1.skip(1)[k] == s1[k + 1]);
        }
        assert forall|k: int|
            0 <= k < s2.skip(1).len() implies (#[trigger] s2.skip(1)[k]).len() > 0 && !s2.skip(
            1,
        )[k].contains('-') by {
            assert(s2.skip(1)[k] == s2[k + 1]);
        }
        lemma_join_key_injective(s1.skip(1), s2.skip(1));
        assert forall|k: int| 0 <= k < s1.len() implies s1[k] == s2[k] by {
            if k > 0 {
                assert(s1.skip(1)[k - 1] == s1[k]);
                assert(s2.skip(1)[k - 1] == s2[k]);
            }
        }
        assert(s1.len() == s2.len());
        assert(s1 =~= s2);
    }
}

/// Completeness of the segmenter: any reading of a letters-only input as
/// dictionary syllables is among the results, as long as fewer than ten
/// results come back (with ten, readings beyond the cap may be cut).
pub proof fn lemma_segmenter_complete(d: YiIME, input: Seq<char>, segs: Seq<Seq<char>>)
    requires
        input.len() >= 1,
        all_lowercase(input),
        segs.len() >= 1,
        concat_segs(segs) == input,
        forall|k: int|
            0 <= k < segs.len() ==> d.spec_has_syllable(#[trigger] segs[k]) && segs[k].len() > 0,
        spec_segment_pinyin(d, input).len() < 10,
    ensures
        exists|t: int|
            0 <= t < spec_segment_pinyin(d, input).len() && #[trigger] spec_segment_pinyin(
                d,
                input,
            )[t].segments == segs,
{
    let dpv = spec_dp_out(d, input);
    let sorted = spec_sort_desc(dpv);
    let out = spec_segment_pinyin(d, input);
    assert(!input.contains('-')) by {
        if input.contains('-') {
            let c = choose|c: int| 0 <= c < input.len() && input[c] == '-';
            assert('a' <= input[c] <= 'z');
        }
    }
    assert(out == spec_dedup(sorted, Seq::empty(), 10));
    assert(input.take(input.len() as int) =~= input);
    lemma_dp_complete(d, input, segs, input.len() as int);
    let t0 = choose|t: int| 0 <= t < dpv.len() && dpv[t].segments == segs;
    lemma_sort_has(dpv, t0);
    let u = choose|u: int| 0 <= u < sorted.len() && sorted[u] == dpv[t0];
    assert(join_key(sorted[u].segments) == join_key(segs));
    lemma_dedup_covers(sorted, Seq::empty(), 10, u);
    let y = choose|y: int|
        0 <= y < out.len() && join_key(out[y].segments) == join_key(sorted[u].segments);
    lemma_dedup_elems(sorted, Seq::empty(), 10, y);
    let w = choose|w: int| 0 <= w < sorted.len() && sorted[w] == out[y];
    lemma_sort_elems(dpv, w);
    let u2 = choose|u2: int| 0 <= u2 < dpv.len() && dpv[u2] == sorted[w];
    lemma_dp_clean(d, input, input.len() as int);
    assert(clean_segments(out[y]));
    assert forall|k: int|
        0 <= k < segs.len() implies (#[trigger] segs[k]).len() > 0 && !segs[k].contains('-') by {
        if segs[k].contains('-') {
            let c = choose|c: int| 0 <= c < segs[k].len() && segs[k][c] == '-';
            lemma_concat_contains(segs, k, c);
        }
    }
    assert(join_key(segs).len() > 0) by {
        if segs.len() == 1 {
            assert(join_key(segs) == segs[0]);
        } else {
            assert(join_key(segs) == segs[0] + seq!['-'] + join_key(segs.skip(1)));
        }
    }
    if out[y].segments.len() == 0 {
        assert(join_key(out[y].segments).len() == 0);
        assert(false);
    }
    lemma_join_key_injective(out[y].segments, segs);
    assert(out[y].segments =~= segs);
    assert(spec_segment_pinyin(d, input)[y].segments == segs);
}


} // verus!
