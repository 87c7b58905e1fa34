//! The input session: process-wide mode flags, the per-keystroke state
//! machine over the composition buffer, and the commit formatting that
//! turns a chosen candidate into the text to inject.

use vstd::prelude::*;
use vstd::string::*;
use crate::strutil::{chars_of, string_from_chars, is_prefix_of};
use crate::queries::radical_tag;
use crate::dict::YiIME;
use crate::candidates::{CandidateManager, WindowCommand, spec_valid_input, spec_candidate_list};

verus! {

/// How a committed candidate is rendered.
#[derive(Clone, Copy, PartialEq, Eq, Structural, Debug)]
pub enum InputMode {
    YiOnly,
    PinyinYi,
    PinyinWithYi,
    YiWithPinyin,
    HtmlRuby,
}

/// Whether letter keys compose Yi text or pass through as English.
#[derive(Clone, Copy, PartialEq, Eq, Structural, Debug)]
pub enum EnglishInputState {
    Yi,
    LowerCase,
    UpperCase,
}

/// The process-wide flags shared between the session and the capture
/// layer.
#[derive(Clone, Copy, PartialEq, Eq, Structural, Debug)]
pub struct AppState {
    pub is_active: bool,
    pub input_buffer_empty: bool,
    pub injecting_text: bool,
    pub input_mode: InputMode,
    pub english_input_state: EnglishInputState,
}

impl AppState {
    /// The startup state: inactive, empty buffer, not injecting, Yi-only
    /// output, Yi letters.
    pub fn new() -> (r: Self)
        ensures
            !r.is_active,
            r.input_buffer_empty,
            !r.injecting_text,
            r.input_mode == InputMode::YiOnly,
            r.english_input_state == EnglishInputState::Yi,
    {
        AppState {
            is_active: false,
            input_buffer_empty: true,
            injecting_text: false,
            input_mode: InputMode::YiOnly,
            english_input_state: EnglishInputState::Yi,
        }
    }

    /// Records whether the composition buffer is empty.
    pub fn set_input_buffer_empty(&mut self, empty: bool)
        ensures
            *final(self) == (AppState { input_buffer_empty: empty, ..*old(self) }),
    {
        self.input_buffer_empty = empty;
    }

    /// Selects the output formatting mode.
    pub fn set_input_mode(&mut self, mode: InputMode)
        ensures
            *final(self) == (AppState { input_mode: mode, ..*old(self) }),
    {
        self.input_mode = mode;
    }

    /// The current output formatting mode.
    pub fn get_input_mode(&self) -> (r: InputMode)
        ensures
            r == self.input_mode,
    {
        self.input_mode
    }

    /// Sets whether letters compose Yi text or pass through as English.
    pub fn set_english_input_state(&mut self, state: EnglishInputState)
        ensures
            *final(self) == (AppState { english_input_state: state, ..*old(self) }),
    {
        self.english_input_state = state;
    }

    /// The current English-input state.
    pub fn get_english_input_state(&self) -> (r: EnglishInputState)
        ensures
            r == self.english_input_state,
    {
        self.english_input_state
    }
}

/// The first position of the `" ("` separator at or after `i`; negative
/// when there is none.
pub open spec fn first_paren_from(s: Seq<char>, i: int) -> int
    decreases s.len() - i,
{
    if i < 0 || i + 1 >= s.len() {
        -1
    } else if s[i] == ' ' && s[i + 1] == '(' {
        i
    } else {
        first_paren_from(s, i + 1)
    }
}

/// The last position of `)`; negative when there is none.
pub open spec fn last_rparen(s: Seq<char>) -> int
    decreases s.len(),
{
    if s.len() == 0 {
        -1
    } else if s.last() == ')' {
        s.len() - 1
    } else {
        last_rparen(s.drop_last())
    }
}

/// The Yi text with a leading radical marker removed.
pub open spec fn strip_radical(y: Seq<char>) -> Seq<char> {
    if is_prefix_of(radical_tag(), y) {
        y.skip(radical_tag().len() as int)
    } else {
        y
    }
}

/// A candidate item parsed back into its Yi text and its pinyin
/// annotation: split at the first `" ("`, closed by the last `)`; an item
/// of any other shape is all Yi text with an empty annotation.
pub open spec fn spec_extract_yi_and_pinyin(item: Seq<char>) -> (Seq<char>, Seq<char>) {
    let i = first_paren_from(item, 0);
    let e = last_rparen(item);
    if i >= 0 && e >= i + 2 {
        (strip_radical(item.take(i)), item.subrange(i + 2, e))
    } else {
        (item, Seq::empty())
    }
}

/// The Yi text of a candidate item: what precedes the first `" ("`, the
/// radical marker removed.
pub open spec fn spec_extract_yi_text(item: Seq<char>) -> Seq<char> {
    let i = first_paren_from(item, 0);
    let base = if i >= 0 {
        item.take(i)
    } else {
        item
    };
    strip_radical(base)
}

/// The annotation with each dash replaced by a space.
pub open spec fn dashes_to_spaces(s: Seq<char>) -> Seq<char> {
    Seq::new(
        s.len(),
        |i: int| if s[i] == '-' {
            ' '
        } else {
            s[i]
        },
    )
}

/// The first dash at or after `i`; negative when there is none.
pub open spec fn first_dash_from(s: Seq<char>, i: int) -> int
    decreases s.len() - i,
{
    if i < 0 || i >= s.len() {
        -1
    } else if s[i] == '-' {
        i
    } else {
        first_dash_from(s, i + 1)
    }
}

/// The annotation split on dashes.
pub open spec fn split_dash(s: Seq<char>) -> Seq<Seq<char>>
    decreases s.len(),
{
    let i = first_dash_from(s, 0);
    if i < 0 || i >= s.len() {
        seq![s]
    } else {
        seq![s.take(i)] + split_dash(s.skip(i + 1))
    }
}

/// One ruby group: the character with its annotation.
pub open spec fn ruby_one(c: char, p: Seq<char>) -> Seq<char> {
    "<ruby>"@ + seq![c] + "<rp>(</rp><rt>"@ + p + "</rt><rp>)</rp></ruby>"@
}

/// The ruby groups from position `i` on; characters beyond the
/// annotations get an empty annotation.
pub open spec fn ruby_from(yi: Seq<char>, parts: Seq<Seq<char>>, i: int) -> Seq<char>
    decreases yi.len() - i,
{
    if i < 0 || i >= yi.len() {
        Seq::empty()
    } else {
        let p = if i < parts.len() {
            parts[i]
        } else {
            Seq::empty()
        };
        ruby_one(yi[i], p) + ruby_from(yi, parts, i + 1)
    }
}

/// The committed text for a Yi text and its annotation, by mode.
pub open spec fn spec_format_by_mode(mode: InputMode, yi: Seq<char>, ann: Seq<char>) -> Seq<char> {
    let pin = dashes_to_spaces(ann);
    match mode {
        InputMode::YiOnly => yi,
        InputMode::PinyinYi => pin + seq![' '] + yi,
        InputMode::PinyinWithYi => pin + seq!['\u{FF08}'] + yi + seq!['\u{FF09}'],
        InputMode::YiWithPinyin => yi + seq!['\u{FF08}'] + pin + seq!['\u{FF09}'],
        InputMode::HtmlRuby => ruby_from(yi, split_dash(ann), 0),
    }
}

/// Splits a candidate item into its Yi text and its annotation.
pub fn extract_yi_and_pinyin(item: &str) -> (r: (String, String))
    ensures
        (r.0@, r.1@) == spec_extract_yi_and_pinyin(item@),
{
    let cs: Vec<char> = chars_of(item);
    let n: usize = cs.len();
    let mut i: usize = 0;
    let mut found: bool = false;
    while i + 1 < n && !found
        invariant
            0 <= i,
            i + 1 <= n || i == 0,
            n == cs@.len(),
            cs@ == item@,
            found ==> i + 1 < n && first_paren_from(item@, 0) == i,
            !found ==> first_paren_from(item@, 0) == first_paren_from(item@, i as int),
        decreases n - i + (if found { 0int } else { 1int }),
    {
        if cs[i] == ' ' && cs[i + 1] == '(' {
            found = true;
        } else {
            i += 1;
        }
    }
    let mut e: usize = n;
    let mut efound: bool = false;
    proof {
        assert(item@.take(n as int) =~= item@);
    }
    while e > 0 && !efound
        invariant
            0 <= e <= n,
            n == cs@.len(),
            cs@ == item@,
            efound ==> e < n && item@[e as int] == ')' && last_rparen(item@) == e,
            !efound ==> last_rparen(item@) == last_rparen(item@.take(e as int)),
        decreases e + (if efound { 0int } else { 1int }),
    {
        if cs[e - 1] == ')' {
            e -= 1;
            efound = true;
            proof {
                assert(item@.take(e as int + 1).last() == item@[e as int]);
                assert(last_rparen(item@.take(e as int + 1)) == e);
            }
        } else {
            e -= 1;
            proof {
                assert(item@.take(e as int + 1).last() == item@[e as int]);
                assert(item@.take(e as int + 1).drop_last() =~= item@.take(e as int));
            }
        }
    }
    proof {
        if !found {
            assert(first_paren_from(item@, i as int) == -1);
        }
        if !efound {
            assert(item@.take(0).len() == 0);
            assert(last_rparen(item@) == -1);
        }
    }
    if found && efound && e >= i + 2 {
        let yi_part: &str = item;
        let mut yi: Vec<char> = Vec::new();
        let mut k: usize = 0;
        while k < i
            invariant
                0 <= k <= i,
                i < n,
                n == cs@.len(),
                cs@ == item@,
                yi@ == item@.take(i as int).take(k as int),
            decreases i - k,
        {
            yi.push(cs[k]);
            proof {
                assert(item@.take(i as int).take(k as int + 1) =~= item@.take(i as int).take(
                    k as int,
                ).push(item@[k as int]));
            }
            k += 1;
        }
        proof {
            assert(item@.take(i as int).take(i as int) =~= item@.take(i as int));
        }
        let base = string_from_chars(&yi);
        let stripped: String = strip_radical_exec(base.as_str());
        let mut ann: Vec<char> = Vec::new();
        let mut k2: usize = i + 2;
        while k2 < e
            invariant
                i + 2 <= k2 <= e,
                e < n,
                n == cs@.len(),
                cs@ == item@,
                ann@ == item@.subrange(i as int + 2, k2 as int),
            decreases e - k2,
        {
            ann.push(cs[k2]);
            proof {
                assert(item@.subrange(i as int + 2, k2 as int + 1) =~= item@.subrange(
                    i as int + 2,
                    k2 as int,
                ).push(item@[k2 as int]));
            }
            k2 += 1;
        }
        let ann_s = string_from_chars(&ann);
        (stripped, ann_s)
    } else {
        proof {
            if found && efound {
                assert(e < i + 2);
            }
        }
        let mut empty_ann: String = String::new();
        (String::from_str(item), empty_ann)
    }
}

/// Removes a leading radical marker.
fn strip_radical_exec(y: &str) -> (r: String)
    ensures
        r@ == strip_radical(y@),
{
    if crate::strutil::str_starts_with(y, "[radical] ") {
        proof {
            reveal_strlit("[radical] ");
        }
        let n: usize = y.unicode_len();
        let r: &str = y.substring_char(10, n);
        proof {
            assert(radical_tag().len() == 10);
            assert(r@ =~= y@.skip(radical_tag().len() as int));
        }
        String::from_str(r)
    } else {
        String::from_str(y)
    }
}

/// The Yi text of a candidate item.
pub fn extract_yi_text(item: &str) -> (r: String)
    ensures
        r@ == spec_extract_yi_text(item@),
{
    let (yi, ann) = extract_yi_and_pinyin_prefix(item);
    yi
}

/// Like `extract_yi_and_pinyin`, but the annotation is only what the Yi
/// text drops: the split point alone decides.
fn extract_yi_and_pinyin_prefix(item: &str) -> (r: (String, String))
    ensures
        r.0@ == spec_extract_yi_text(item@),
{
    let cs: Vec<char> = chars_of(item);
    let n: usize = cs.len();
    let mut i: usize = 0;
    let mut found: bool = false;
    while i + 1 < n && !found
        invariant
            0 <= i,
            i + 1 <= n || i == 0,
            n == cs@.len(),
            cs@ == item@,
            found ==> i + 1 < n && first_paren_from(item@, 0) == i,
            !found ==> first_paren_from(item@, 0) == first_paren_from(item@, i as int),
        decreases n - i + (if found { 0int } else { 1int }),
    {
        if cs[i] == ' ' && cs[i + 1] == '(' {
            found = true;
        } else {
            i += 1;
        }
    }
    proof {
        if !found {
            assert(first_paren_from(item@, i as int) == -1);
        }
    }
    if found {
        let mut yi: Vec<char> = Vec::new();
        let mut k: usize = 0;
        while k < i
            invariant
                0 <= k <= i,
                i < n,
                n == cs@.len(),
                cs@ == item@,
                yi@ == item@.take(i as int).take(k as int),
            decreases i - k,
        {
            yi.push(cs[k]);
            proof {
                assert(item@.take(i as int).take(k as int + 1) =~= item@.take(i as int).take(
                    k as int,
                ).push(item@[k as int]));
            }
            k += 1;
        }
        proof {
            assert(item@.take(i as int).take(i as int) =~= item@.take(i as int));
        }
        let base = string_from_chars(&yi);
        (strip_radical_exec(base.as_str()), String::new())
    } else {
        (strip_radical_exec(item), String::new())
    }
}

/// Splitting never yields an empty list.
proof fn lemma_split_dash_nonempty(s: Seq<char>)
    ensures
        split_dash(s).len() >= 1,
{
}

/// Relates the first dash seen from `k + 1` in `t` to the first dash
/// seen from `k` in `t` without its head.
proof fn lemma_first_dash_shift(t: Seq<char>, k: int)
    requires
        t.len() > 0,
        0 <= k,
    ensures
        first_dash_from(t, k + 1) == if first_dash_from(t.skip(1), k) < 0 {
            -1
        } else {
            first_dash_from(t.skip(1), k) + 1
        },
    decreases t.len() - k,
{
    let u = t.skip(1);
    if k >= u.len() {
    } else {
        assert(u[k] == t[k + 1]);
        if t[k + 1] == '-' {
        } else {
            lemma_first_dash_shift(t, k + 1);
        }
    }
}

/// Where the first dash lies, when there is one.
proof fn lemma_first_dash_bounds(s: Seq<char>, k: int)
    requires
        0 <= k,
    ensures
        first_dash_from(s, k) < 0 || (k <= first_dash_from(s, k) < s.len() && s[first_dash_from(
            s,
            k,
        )] == '-'),
    decreases s.len() - k,
{
    if k < s.len() && s[k] != '-' {
        lemma_first_dash_bounds(s, k + 1);
    }
}

/// Peeling a non-dash head prepends it to the first piece.
proof fn lemma_split_dash_cons(t: Seq<char>)
    requires
        t.len() > 0,
        t[0] != '-',
    ensures
        split_dash(t.skip(1)).len() >= 1,
        split_dash(t) =~= seq![seq![t[0]] + split_dash(t.skip(1))[0]] + split_dash(t.skip(1)).skip(
            1,
        ),
{
    let u = t.skip(1);
    lemma_split_dash_nonempty(u);
    lemma_first_dash_shift(t, 0);
    let d = first_dash_from(u, 0);
    if d < 0 {
        assert(first_dash_from(t, 0) == first_dash_from(t, 1));
        assert(split_dash(t) == seq![t]);
        assert(split_dash(u) == seq![u]);
        assert(split_dash(u)[0] == u);
        assert(split_dash(u).len() == 1);
        assert(split_dash(u).skip(1).len() == 0);
        assert forall|k: int| 0 <= k < t.len() implies (seq![t[0]] + u)[k] == t[k] by {
            if k > 0 {
                assert(u[k - 1] == t[k]);
            }
        }
        assert(t =~= seq![t[0]] + u);
        assert(seq![seq![t[0]] + split_dash(u)[0]] + split_dash(u).skip(1) =~= seq![t]);
    } else {
        lemma_first_dash_bounds(u, 0);
        assert(0 <= d < u.len());
        assert(first_dash_from(t, 0) == d + 1);
        assert(d + 1 < t.len());
        assert(split_dash(t) == seq![t.take(d + 1)] + split_dash(t.skip(d + 2)));
        assert(split_dash(u) == seq![u.take(d)] + split_dash(u.skip(d + 1)));
        assert(t.take(d + 1) =~= seq![t[0]] + u.take(d));
        assert(t.skip(d + 2) =~= u.skip(d + 1));
        assert(split_dash(u)[0] == u.take(d));
        assert(split_dash(u).skip(1) =~= split_dash(u.skip(d + 1)));
        assert(split_dash(t) =~= seq![seq![t[0]] + split_dash(u)[0]] + split_dash(u).skip(1));
    }
}

/// The pieces of `s` split on dashes.
#[verifier::loop_isolation(false)]
pub fn split_dash_exec(s: &str) -> (r: Vec<String>)
    ensures
        r.deep_view() == split_dash(s@),
{
    let cs: Vec<char> = chars_of(s);
    let n: usize = cs.len();
    let mut out: Vec<String> = Vec::new();
    let mut cur: String = String::new();
    let mut pos: usize = 0;
    proof {
        assert(s@.skip(0) =~= s@);
        lemma_split_dash_nonempty(s@.skip(0));
        assert(out.deep_view() + (seq![cur@ + split_dash(s@.skip(0))[0]] + split_dash(
            s@.skip(0),
        ).skip(1)) =~= split_dash(s@));
    }
    while pos < n
        invariant
            0 <= pos <= n,
            n == s@.len(),
            cs@ == s@,
            split_dash(s@.skip(pos as int)).len() >= 1,
            out.deep_view() + (seq![cur@ + split_dash(s@.skip(pos as int))[0]] + split_dash(
                s@.skip(pos as int),
            ).skip(1)) =~= split_dash(s@),
        decreases n - pos,
    {
        let ghost rest = s@.skip(pos as int);
        proof {
            assert(rest[0] == s@[pos as int]);
            assert(rest.skip(1) =~= s@.skip(pos as int + 1));
            lemma_split_dash_nonempty(s@.skip(pos as int + 1));
        }
        if cs[pos] == '-' {
            let ghost out0 = out.deep_view();
            let done: String = cur;
            out.push(done);
            cur = String::new();
            proof {
                assert(first_dash_from(rest, 0) == 0);
                assert(rest.take(0) =~= Seq::<char>::empty());
                assert(split_dash(rest) == seq![rest.take(0)] + split_dash(rest.skip(1)));
                assert(split_dash(rest)[0] =~= Seq::<char>::empty());
                assert(split_dash(rest).skip(1) =~= split_dash(rest.skip(1)));
                assert(out.deep_view() =~= out0.push(done@));
                assert(out.deep_view() + (seq![cur@ + split_dash(s@.skip(pos as int + 1))[0]]
                    + split_dash(s@.skip(pos as int + 1)).skip(1)) =~= split_dash(s@));
            }
        } else {
            let ghost cur0 = cur@;
            cur.push(cs[pos]);
            proof {
                lemma_split_dash_cons(rest);
                assert(cur@ =~= cur0.push(s@[pos as int]));
                assert(cur0 + split_dash(rest)[0] =~= cur0 + (seq![rest[0]] + split_dash(
                    rest.skip(1),
                )[0]));
                assert(cur0 + (seq![rest[0]] + split_dash(rest.skip(1))[0]) =~= cur@ + split_dash(
                    s@.skip(pos as int + 1),
                )[0]);
                assert(split_dash(rest).skip(1) =~= split_dash(s@.skip(pos as int + 1)).skip(1));
            }
        }
        pos += 1;
    }
    proof {
        assert(s@.skip(n as int).len() == 0);
        assert(first_dash_from(s@.skip(n as int), 0) == -1);
        assert(split_dash(s@.skip(n as int)) == seq![s@.skip(n as int)]);
        assert(split_dash(s@.skip(n as int))[0] =~= Seq::<char>::empty());
    }
    let ghost out_fin = out.deep_view();
    out.push(cur);
    proof {
        assert(out.deep_view() =~= split_dash(s@));
    }
    out
}

/// Renders the committed text as HTML ruby groups: each Yi character
/// wrapped with its pinyin annotation; surplus characters annotated
/// empty.
#[verifier::loop_isolation(false)]
pub fn format_as_html_ruby(yi_text: &str, pinyin: &str) -> (r: String)
    ensures
        r@ == ruby_from(yi_text@, split_dash(pinyin@), 0),
{
    let yiv: Vec<char> = chars_of(yi_text);
    let parts: Vec<String> = split_dash_exec(pinyin);
    let ghost pv = split_dash(pinyin@);
    let mut r: String = String::new();
    let mut i: usize = 0;
    proof {
        assert(r@ + ruby_from(yi_text@, pv, 0) =~= ruby_from(yi_text@, pv, 0));
    }
    while i < yiv.len()
        invariant
            0 <= i <= yiv@.len(),
            yiv@ == yi_text@,
            parts.deep_view() == pv,
            r@ + ruby_from(yi_text@, pv, i as int) =~= ruby_from(yi_text@, pv, 0),
        decreases yiv@.len() - i,
    {
        let ghost r0 = r@;
        r.append("<ruby>");
        r.push(yiv[i]);
        r.append("<rp>(</rp><rt>");
        if i < parts.len() {
            r.append(parts[i].as_str());
            proof {
                assert(parts@[i as int]@ == pv[i as int]);
            }
        }
        r.append("</rt><rp>)</rp></ruby>");
        proof {
            let p = if (i as int) < pv.len() {
                pv[i as int]
            } else {
                Seq::<char>::empty()
            };
            assert(r@ =~= r0 + ruby_one(yi_text@[i as int], p));
            assert(r@ + ruby_from(yi_text@, pv, i as int + 1) =~= ruby_from(yi_text@, pv, 0));
        }
        i += 1;
    }
    proof {
        assert(ruby_from(yi_text@, pv, yi_text@.len() as int) =~= Seq::<char>::empty());
        assert(r@ =~= ruby_from(yi_text@, pv, 0));
    }
    r
}

/// Replaces each dash with a space.
pub fn dashes_to_spaces_exec(s: &str) -> (r: String)
    ensures
        r@ == dashes_to_spaces(s@),
{
    let cs: Vec<char> = chars_of(s);
    let mut out: Vec<char> = Vec::new();
    let mut i: usize = 0;
    while i < cs.len()
        invariant
            0 <= i <= cs@.len(),
            cs@ == s@,
            out@ =~= dashes_to_spaces(s@).take(i as int),
        decreases cs@.len() - i,
    {
        let c: char = cs[i];
        if c == '-' {
            out.push(' ');
        } else {
            out.push(c);
        }
        proof {
            assert(dashes_to_spaces(s@)[i as int] == (if s@[i as int] == '-' {
                ' '
            } else {
                s@[i as int]
            }));
            assert(out@ =~= dashes_to_spaces(s@).take(i as int + 1));
        }
        i += 1;
    }
    proof {
        assert(dashes_to_spaces(s@).take(s@.len() as int) =~= dashes_to_spaces(s@));
    }
    string_from_chars(&out)
}

/// The committed text for a chosen Yi text and annotation, under the
/// given mode.
pub fn format_text_by_mode(mode: InputMode, yi_text: &str, pinyin: &str) -> (r: String)
    ensures
        r@ == spec_format_by_mode(mode, yi_text@, pinyin@),
{
    match mode {
        InputMode::YiOnly => String::from_str(yi_text),
        InputMode::PinyinYi => {
            let mut r: String = dashes_to_spaces_exec(pinyin);
            r.push(' ');
            r.append(yi_text);
            proof {
                assert(r@ =~= spec_format_by_mode(mode, yi_text@, pinyin@));
            }
            r
        },
        InputMode::PinyinWithYi => {
            let mut r: String = dashes_to_spaces_exec(pinyin);
            r.push('\u{FF08}');
            r.append(yi_text);
            r.push('\u{FF09}');
            proof {
                assert(r@ =~= spec_format_by_mode(mode, yi_text@, pinyin@));
            }
            r
        },
        InputMode::YiWithPinyin => {
            let mut r: String = String::from_str(yi_text);
            r.push('\u{FF08}');
            let pin = dashes_to_spaces_exec(pinyin);
            r.append(pin.as_str());
            r.push('\u{FF09}');
            proof {
                assert(r@ =~= spec_format_by_mode(mode, yi_text@, pinyin@));
            }
            r
        },
        InputMode::HtmlRuby => format_as_html_ruby(yi_text, pinyin),
    }
}

/// Virtual key codes the session understands.
pub const VK_BACK: u32 = 8;

pub const VK_SPACE: u32 = 32;

pub const VK_ESCAPE: u32 = 27;

/// The most letters a composition buffer will hold; further letters are
/// refused like invalid prefixes. A machine bound, not a rule of the
/// input method: it only keeps the buffer's length arithmetic total.
pub const BUF_CAP: usize = 4096;

/// What the session shows for a buffer: nothing when it is empty or not
/// a valid prefix, else the candidate list.
pub open spec fn spec_session_list(d: YiIME, b: Seq<char>) -> Seq<Seq<char>> {
    if b.len() == 0 || !spec_valid_input(d, b) {
        Seq::empty()
    } else {
        spec_candidate_list(d, b)
    }
}

/// The letter a letter-key code stands for, lowercased.
pub open spec fn letter_char(vk: u32) -> char {
    ((vk - 0x41 + 0x61) as u8) as char
}

/// The punctuation key codes the session commits on.
pub open spec fn is_punct_vk(vk: u32) -> bool {
    vk == 0xDB || vk == 0xDD || vk == 0xDC || vk == 0xBA || vk == 0xBC || vk == 0xBE
}

/// The mark a punctuation key commits, by shift state.
pub open spec fn punct_seq(vk: u32, shift: bool) -> Seq<char> {
    if vk == 0xDB {
        if shift {
            "{"@
        } else {
            "\u{3010}"@
        }
    } else if vk == 0xDD {
        if shift {
            "}"@
        } else {
            "\u{3011}"@
        }
    } else if vk == 0xDC {
        if shift {
            "|"@
        } else {
            "\u{3001}"@
        }
    } else if vk == 0xBA {
        if shift {
            "\u{FF1A}"@
        } else {
            "\u{FF1B}"@
        }
    } else if vk == 0xBC {
        if shift {
            "\u{300A}"@
        } else {
            "\u{FF0C}"@
        }
    } else if vk == 0xBE {
        if shift {
            "\u{300B}"@
        } else {
            "\u{3002}"@
        }
    } else {
        Seq::empty()
    }
}

/// The session state the contracts speak of: the buffer, the flags, the
/// candidate list, and whether the window shows.
pub struct SessionV {
    pub buffer: Seq<char>,
    pub state: AppState,
    pub candidates: Seq<Seq<char>>,
    pub visible: bool,
}

/// A session state is consistent: letters only, bounded, flags mirroring
/// the buffer, candidates as the buffer demands, not injecting.
pub open spec fn session_wf(d: YiIME, s: SessionV) -> bool {
    &&& forall|i: int| 0 <= i < s.buffer.len() ==> 'a' <= #[trigger] s.buffer[i] <= 'z'
    &&& s.buffer.len() <= BUF_CAP
    &&& s.state.input_buffer_empty == (s.buffer.len() == 0)
    &&& s.visible == (s.buffer.len() > 0)
    &&& s.candidates == spec_session_list(d, s.buffer)
    &&& !s.state.injecting_text
}

/// One key event's outcome at the specification level.
pub struct StepOutV {
    pub state: SessionV,
    pub inject: Option<Seq<char>>,
    pub window_changed: bool,
}

/// The session reset after a commit or cancel: empty buffer, no
/// candidates, window hidden.
pub open spec fn cleared(s: SessionV) -> SessionV {
    SessionV {
        buffer: Seq::empty(),
        state: AppState { input_buffer_empty: true, ..s.state },
        candidates: Seq::empty(),
        visible: false,
    }
}

/// The session moved to buffer `b`, with flags, candidates and window
/// following it.
pub open spec fn retarget(d: YiIME, s: SessionV, b: Seq<char>) -> SessionV {
    SessionV {
        buffer: b,
        state: AppState { input_buffer_empty: b.len() == 0, ..s.state },
        candidates: spec_session_list(d, b),
        visible: b.len() > 0,
    }
}

/// A committed candidate: the session resets and the formatted text goes
/// out.
pub open spec fn commit_out(d: YiIME, s: SessionV, item: Seq<char>) -> StepOutV {
    let parts = spec_extract_yi_and_pinyin(item);
    StepOutV {
        state: cleared(s),
        inject: Some(spec_format_by_mode(s.state.input_mode, parts.0, parts.1)),
        window_changed: true,
    }
}

/// A key that changes nothing.
pub open spec fn no_step(s: SessionV) -> StepOutV {
    StepOutV { state: s, inject: None, window_changed: false }
}

/// The per-keystroke policy. Backspace drops the last letter and
/// refreshes. A digit commits that candidate when it exists. A letter is
/// appended only while the result is a valid prefix. Space commits the
/// first candidate. Escape cancels. A punctuation key commits the first
/// candidate's Yi text followed by the mark. Key-up events and all other
/// keys change nothing.
pub open spec fn spec_step(d: YiIME, s: SessionV, vk: u32, is_down: bool, shift: bool) -> StepOutV {
    if !is_down {
        no_step(s)
    } else if vk == VK_BACK {
        if s.buffer.len() > 0 {
            StepOutV {
                state: retarget(d, s, s.buffer.drop_last()),
                inject: None,
                window_changed: true,
            }
        } else {
            no_step(s)
        }
    } else if 0x31 <= vk && vk <= 0x39 {
        if s.buffer.len() > 0 && vk - 0x30 <= s.candidates.len() {
            commit_out(d, s, s.candidates[vk as int - 0x31])
        } else {
            no_step(s)
        }
    } else if 0x41 <= vk && vk <= 0x5A {
        let b2 = s.buffer.push(letter_char(vk));
        if s.buffer.len() < BUF_CAP && spec_valid_input(d, b2) {
            StepOutV { state: retarget(d, s, b2), inject: None, window_changed: true }
        } else {
            no_step(s)
        }
    } else if vk == VK_SPACE {
        if s.buffer.len() > 0 && s.candidates.len() > 0 {
            commit_out(d, s, s.candidates[0])
        } else {
            no_step(s)
        }
    } else if vk == VK_ESCAPE {
        StepOutV { state: cleared(s), inject: None, window_changed: true }
    } else if is_punct_vk(vk) && s.buffer.len() > 0 {
        if s.candidates.len() > 0 {
            StepOutV {
                state: cleared(s),
                inject: Some(spec_extract_yi_text(s.candidates[0]) + punct_seq(vk, shift)),
                window_changed: true,
            }
        } else {
            no_step(s)
        }
    } else {
        no_step(s)
    }
}

/// What a key handler call hands back to the glue around it: text to
/// inject, and a window command when the display changed.
pub struct KeyOutcome {
    pub inject: Option<String>,
    pub window: Option<WindowCommand>,
}

/// The session: the composition buffer, the candidate builder, the flags
/// and the current candidate list.
pub struct InputHandler {
    pub input_buffer: String,
    pub manager: CandidateManager,
    pub app_state: AppState,
    pub candidates: Vec<String>,
    pub window_visible: bool,
}

impl View for InputHandler {
    type V = SessionV;

    open spec fn view(&self) -> SessionV {
        SessionV {
            buffer: self.input_buffer@,
            state: self.app_state,
            candidates: self.candidates.deep_view(),
            visible: self.window_visible,
        }
    }
}

impl InputHandler {
    /// The session's invariant; `session_wf` over its state, with a
    /// well-formed dictionary.
    pub open spec fn wf(self) -> bool {
        &&& self.manager.yi_engine.wf()
        &&& session_wf(self.manager.yi_engine, self@)
    }

    /// A fresh session over the given engine and flags: empty buffer, no
    /// candidates, hidden window.
    pub fn new(yi_engine: YiIME, app_state: AppState) -> (r: Self)
        requires
            yi_engine.wf(),
            app_state.input_buffer_empty,
            !app_state.injecting_text,
        ensures
            r.wf(),
            r.manager.yi_engine == yi_engine,
            r.app_state == app_state,
            r@.buffer.len() == 0,
    {
        let r = InputHandler {
            input_buffer: String::new(),
            manager: CandidateManager::new(yi_engine),
            app_state,
            candidates: Vec::new(),
            window_visible: false,
        };
        proof {
            assert(r.candidates.deep_view() =~= Seq::<Seq<char>>::empty());
        }
        r
    }

    /// The composition buffer.
    pub fn get_input_buffer(&self) -> (r: &str)
        ensures
            r@ == self@.buffer,
    {
        self.input_buffer.as_str()
    }

    /// Clears the composition buffer and the flag that mirrors it.
    pub fn clear_input_buffer(&mut self)
        requires
            old(self).wf(),
        ensures
            final(self).wf(),
            final(self).manager == old(self).manager,
            final(self)@ == cleared(old(self)@),
    {
        self.input_buffer = String::new();
        self.app_state.set_input_buffer_empty(true);
        self.candidates = Vec::new();
        self.window_visible = false;
        proof {
            assert(self.candidates.deep_view() =~= Seq::<Seq<char>>::empty());
        }
    }

    /// Commits the candidate at `idx`: parses it, formats it by the
    /// current mode, resets the session, and returns the text to inject.
    fn commit_selected(&mut self, idx: usize) -> (text: String)
        requires
            old(self).wf(),
            idx < old(self).candidates@.len(),
        ensures
            final(self).wf(),
            final(self).manager == old(self).manager,
            final(self)@ == cleared(old(self)@),
            ({
                let parts = spec_extract_yi_and_pinyin(old(self)@.candidates[idx as int]);
                text@ == spec_format_by_mode(old(self)@.state.input_mode, parts.0, parts.1)
            }),
    {
        let selected: String = self.candidates[idx].clone();
        proof {
            assert(selected@ == old(self)@.candidates[idx as int]);
        }
        let parts = extract_yi_and_pinyin(selected.as_str());
        let formatted = format_text_by_mode(
            self.app_state.get_input_mode(),
            parts.0.as_str(),
            parts.1.as_str(),
        );
        self.input_buffer = String::new();
        self.app_state.set_input_buffer_empty(true);
        self.candidates = Vec::new();
        self.window_visible = false;
        proof {
            assert(self.candidates.deep_view() =~= Seq::<Seq<char>>::empty());
        }
        formatted
    }

    /// Handles one key event, as `spec_step` states: the new state is
    /// pinned; text to inject comes back, and a window command whenever
    /// the display changed (hide when the window should not show, else
    /// the fresh candidates and buffer). After any commit the buffer and
    /// candidate list are empty, the window hidden, and nothing marked
    /// injecting.
    #[verifier::loop_isolation(false)]
    #[verifier::rlimit(100)]
    pub fn handle_key_event(&mut self, event: crate::KeyEvent, shift_pressed: bool) -> (outcome:
        KeyOutcome)
        requires
            old(self).wf(),
        ensures
            final(self).wf(),
            final(self).manager == old(self).manager,
            final(self)@ == spec_step(
                old(self).manager.yi_engine,
                old(self)@,
                event.vk_code,
                event.is_key_down,
                shift_pressed,
            ).state,
            (match outcome.inject {
                Some(s) => spec_step(
                    old(self).manager.yi_engine,
                    old(self)@,
                    event.vk_code,
                    event.is_key_down,
                    shift_pressed,
                ).inject == Some(s@),
                None => spec_step(
                    old(self).manager.yi_engine,
                    old(self)@,
                    event.vk_code,
                    event.is_key_down,
                    shift_pressed,
                ).inject is None,
            }),
            (outcome.window is Some) == spec_step(
                old(self).manager.yi_engine,
                old(self)@,
                event.vk_code,
                event.is_key_down,
                shift_pressed,
            ).window_changed,
            (match outcome.window {
                Some(wc) => match wc {
                    WindowCommand::Hide => !final(self)@.visible,
                    WindowCommand::Show { candidates, input } => final(self)@.visible
                        && candidates.deep_view() == final(self)@.candidates && input@ == final(self)@.buffer,
                },
                None => true,
            }),
            outcome.inject is Some ==> final(self).input_buffer@.len() == 0 && final(self).candidates@.len() == 0 && !final(self).window_visible && !final(self).app_state.injecting_text,
    {
        let vk: u32 = event.vk_code;
        if !event.is_key_down {
            return KeyOutcome { inject: None, window: None };
        }
        if vk == VK_BACK {
            if self.input_buffer.as_str().unicode_len() > 0 {
                let mut cv: Vec<char> = chars_of(self.input_buffer.as_str());
                let ghost b0 = self.input_buffer@;
                let _ = cv.pop();
                proof {
                    assert(cv@ =~= b0.drop_last());
                }
                self.input_buffer = string_from_chars(&cv);
                if self.input_buffer.as_str().unicode_len() == 0 {
                    self.app_state.set_input_buffer_empty(true);
                    self.candidates = Vec::new();
                    self.window_visible = false;
                    proof {
                        assert(self.candidates.deep_view() =~= Seq::<Seq<char>>::empty());
                    }
                    return KeyOutcome { inject: None, window: Some(WindowCommand::Hide) };
                } else {
                    self.app_state.set_input_buffer_empty(false);
                    let wc = self.manager.update_candidates(self.input_buffer.as_str());
                    match wc {
                        WindowCommand::Show { candidates, input } => {
                            self.candidates = candidates;
                            self.window_visible = true;
                            let out_c = crate::strutil::clone_string_vec(&self.candidates);
                            let out_i = String::from_str(self.input_buffer.as_str());
                            return KeyOutcome {
                                inject: None,
                                window: Some(
                                    WindowCommand::Show { candidates: out_c, input: out_i },
                                ),
                            };
                        },
                        WindowCommand::Hide => {
                            self.candidates = Vec::new();
                            self.window_visible = false;
                            return KeyOutcome { inject: None, window: Some(WindowCommand::Hide) };
                        },
                    }
                }
            }
            return KeyOutcome { inject: None, window: None };
        }
        if 0x31 <= vk && vk <= 0x39 {
            if self.input_buffer.as_str().unicode_len() > 0 {
                let n: usize = (vk - 0x30) as usize;
                if n <= self.candidates.len() {
                    let text = self.commit_selected(n - 1);
                    return KeyOutcome {
                        inject: Some(text),
                        window: Some(WindowCommand::Hide),
                    };
                }
            }
            return KeyOutcome { inject: None, window: None };
        }
        if 0x41 <= vk && vk <= 0x5A {
            let c: char = ((vk - 0x41 + 0x61) as u8) as char;
            let mut buffer2: String = String::from_str(self.input_buffer.as_str());
            buffer2.push(c);
            proof {
                assert(buffer2@ == self@.buffer.push(letter_char(vk)));
            }
            if self.input_buffer.as_str().unicode_len() < BUF_CAP && self.manager.is_valid_input_sequence(
                buffer2.as_str(),
            ) {
                self.input_buffer = buffer2;
                self.app_state.set_input_buffer_empty(false);
                let cands = self.manager.candidate_list(self.input_buffer.as_str());
                self.candidates = cands;
                self.window_visible = true;
                proof {
                    assert(0x61 <= vk - 0x41 + 0x61 <= 0x7A);
                    assert('a' <= letter_char(vk) <= 'z');
                }
                let out_c = crate::strutil::clone_string_vec(&self.candidates);
                let out_i = String::from_str(self.input_buffer.as_str());
                return KeyOutcome {
                    inject: None,
                    window: Some(WindowCommand::Show { candidates: out_c, input: out_i }),
                };
            }
            return KeyOutcome { inject: None, window: None };
        }
        if vk == VK_SPACE {
            if self.input_buffer.as_str().unicode_len() > 0 && self.candidates.len() > 0 {
                let text = self.commit_selected(0);
                return KeyOutcome { inject: Some(text), window: Some(WindowCommand::Hide) };
            }
            return KeyOutcome { inject: None, window: None };
        }
        if vk == VK_ESCAPE {
            self.clear_input_buffer();
            return KeyOutcome { inject: None, window: Some(WindowCommand::Hide) };
        }
        if (vk == 0xDB || vk == 0xDD || vk == 0xDC || vk == 0xBA || vk == 0xBC || vk == 0xBE)
            && self.input_buffer.as_str().unicode_len() > 0 {
            if self.candidates.len() > 0 {
                let first: String = self.candidates[0].clone();
                proof {
                    assert(first@ == self@.candidates[0]);
                }
                let yi: String = extract_yi_text(first.as_str());
                let punct: &str = punct_for(vk, shift_pressed);
                let mut combined: String = yi;
                combined.append(punct);
                self.clear_input_buffer();
                return KeyOutcome {
                    inject: Some(combined),
                    window: Some(WindowCommand::Hide),
                };
            }
            return KeyOutcome { inject: None, window: None };
        }
        KeyOutcome { inject: None, window: None }
    }
}

/// The mark a punctuation key commits.
fn punct_for(vk: u32, shift: bool) -> (r: &'static str)
    ensures
        r@ == punct_seq(vk, shift),
{
    if vk == 0xDB {
        if shift {
            "{"
        } else {
            "\u{3010}"
        }
    } else if vk == 0xDD {
        if shift {
            "}"
        } else {
            "\u{3011}"
        }
    } else if vk == 0xDC {
        if shift {
            "|"
        } else {
            "\u{3001}"
        }
    } else if vk == 0xBA {
        if shift {
            "\u{FF1A}"
        } else {
            "\u{FF1B}"
        }
    } else if vk == 0xBC {
        if shift {
            "\u{300A}"
        } else {
            "\u{FF0C}"
        }
    } else if vk == 0xBE {
        if shift {
            "\u{300B}"
        } else {
            "\u{3002}"
        }
    } else {
        let r: &'static str = "";
        proof {
            reveal_strlit("");
            assert(r@ =~= Seq::<char>::empty());
        }
        r
    }
}

/// Backspace undoes an accepted letter exactly: the session returns to
/// the state before the letter, candidate list included.
pub proof fn lemma_backspace_undoes_letter(d: YiIME, s: SessionV, vk: u32, shift: bool)
    requires
        session_wf(d, s),
        0x41 <= vk && vk <= 0x5A,
        s.buffer.len() < BUF_CAP,
        spec_valid_input(d, s.buffer.push(letter_char(vk))),
    ensures
        spec_step(d, spec_step(d, s, vk, true, shift).state, VK_BACK, true, shift).state == s,
{
    let b2 = s.buffer.push(letter_char(vk));
    let s1 = spec_step(d, s, vk, true, shift).state;
    assert(s1 == retarget(d, s, b2));
    assert(b2.len() > 0);
    assert(b2.drop_last() =~= s.buffer);
    let s2 = spec_step(d, s1, VK_BACK, true, shift).state;
    assert(s2 == retarget(d, s1, s.buffer));
    assert(s2.state == s.state);
    assert(s2.candidates == spec_session_list(d, s.buffer));
    assert(s2 == s);
}

/// Re-entering a buffer reproduces its candidate list exactly: the list
/// is a function of the engine and the buffer alone, so a session that
/// reaches the same buffer again — after a commit, say — shows the same
/// candidates.
pub proof fn lemma_same_buffer_same_candidates(d: YiIME, s1: SessionV, s2: SessionV)
    requires
        session_wf(d, s1),
        session_wf(d, s2),
        s1.buffer == s2.buffer,
    ensures
        s1.candidates == s2.candidates,
{
}

} // verus!
