//! Parsing hstore text into key / optional value pairs.
use vstd::prelude::*;

use crate::pair_map::{fold_pairs, PairMap};
use crate::text::{chars_of, string_from_chars};

verus! {

/// A decoded pair: the key and, unless it was `NULL`, the value.
pub type PairView = (Seq<char>, Option<Seq<char>>);

/// Whether `c` is one of the two characters that hstore text escapes.
pub open spec fn is_escapable(c: char) -> bool {
    c == '"' || c == '\\'
}

/// The runs of characters that the scanner skips over.
#[derive(Clone, Copy)]
pub enum CharClass {
    /// Anything but a double quote: the gap before a key.
    NotQuote,
    /// Spaces, `=` and `>`: the separator between a key and its value.
    Separator,
    /// Anything but a comma: the rest of a `NULL` token.
    NotComma,
}

pub open spec fn in_class(c: char, class: CharClass) -> bool {
    match class {
        CharClass::NotQuote => c != '"',
        CharClass::Separator => c == ' ' || c == '=' || c == '>',
        CharClass::NotComma => c != ',',
    }
}

/// The first position at or after `i` whose character is not in `class`, or
/// the end of `s`.
pub open spec fn skip_while(s: Seq<char>, i: int, class: CharClass) -> int
    decreases s.len() - i,
{
    if i < s.len() && in_class(s[i], class) {
        skip_while(s, i + 1, class)
    } else {
        i
    }
}

/// Reads a quoted body of `s` from `i`, just past its opening quote: the
/// unescaped text, and the position just past the closing quote (or the end).
/// `\"` stands for `"` and `\\` for `\`; a backslash before any other
/// character is dropped.
pub open spec fn unescape_from(s: Seq<char>, i: int) -> (Seq<char>, int)
    decreases s.len() - i,
{
    if i >= s.len() {
        (Seq::empty(), i)
    } else if s[i] == '"' {
        (Seq::empty(), i + 1)
    } else if s[i] == '\\' {
        if i + 1 < s.len() && is_escapable(s[i + 1]) {
            let (rest, end) = unescape_from(s, i + 2);
            (seq![s[i + 1]] + rest, end)
        } else {
            unescape_from(s, i + 1)
        }
    } else {
        let (rest, end) = unescape_from(s, i + 1);
        (seq![s[i]] + rest, end)
    }
}

/// Whether `t` is the token `NULL`, in any mix of cases.
pub open spec fn is_null_token(t: Seq<char>) -> bool {
    &&& t.len() == 4
    &&& (t[0] == 'n' || t[0] == 'N')
    &&& (t[1] == 'u' || t[1] == 'U')
    &&& (t[2] == 'l' || t[2] == 'L')
    &&& (t[3] == 'l' || t[3] == 'L')
}

/// What one step of the scanner finds from a position.
pub enum ScanView {
    /// No further pair.
    End,
    /// A pair, and the position where the scan resumes.
    Found(Seq<char>, Option<Seq<char>>, int),
    /// A value for the key that starts like `NULL` but is not.
    Malformed(Seq<char>),
}

/// One step of the scanner on `s` from position `i`.
pub open spec fn scan_step(s: Seq<char>, i: int) -> ScanView {
    let q = skip_while(s, i, CharClass::NotQuote);
    if q >= s.len() {
        ScanView::End
    } else {
        let (key, p) = unescape_from(s, q + 1);
        let r = skip_while(s, p, CharClass::Separator);
        if r < s.len() && s[r] == '"' {
            let (value, e) = unescape_from(s, r + 1);
            ScanView::Found(key, Some(value), e)
        } else if r < s.len() && (s[r] == 'N' || s[r] == 'n') {
            let c = skip_while(s, r, CharClass::NotComma);
            if is_null_token(s.subrange(r, c)) {
                ScanView::Found(key, None, if c < s.len() { c + 1 } else { c })
            } else {
                ScanView::Malformed(key)
            }
        } else {
            ScanView::End
        }
    }
}

proof fn lemma_skip_while_bounds(s: Seq<char>, i: int, class: CharClass)
    requires
        0 <= i <= s.len(),
    ensures
        i <= skip_while(s, i, class) <= s.len(),
        skip_while(s, i, class) < s.len() ==> !in_class(s[skip_while(s, i, class)], class),
    decreases s.len() - i,
{
    if i < s.len() && in_class(s[i], class) {
        lemma_skip_while_bounds(s, i + 1, class);
    }
}

proof fn lemma_unescape_bounds(s: Seq<char>, i: int)
    requires
        0 <= i <= s.len(),
    ensures
        i < unescape_from(s, i).1 <= s.len() || (i == s.len() && unescape_from(s, i).1 == i),
    decreases s.len() - i,
{
    if i < s.len() && s[i] != '"' {
        if s[i] == '\\' && i + 1 < s.len() && is_escapable(s[i + 1]) {
            lemma_unescape_bounds(s, i + 2);
        } else {
            lemma_unescape_bounds(s, i + 1);
        }
    }
}

/// A pair found from `i` resumes strictly after `i`, within `s`.
proof fn lemma_scan_step_progress(s: Seq<char>, i: int)
    requires
        0 <= i <= s.len(),
    ensures
        scan_step(s, i) is Found ==> i < scan_step(s, i)->Found_2 <= s.len(),
{
    let q = skip_while(s, i, CharClass::NotQuote);
    lemma_skip_while_bounds(s, i, CharClass::NotQuote);
    if q < s.len() {
        let p = unescape_from(s, q + 1).1;
        lemma_unescape_bounds(s, q + 1);
        let r = skip_while(s, p, CharClass::Separator);
        lemma_skip_while_bounds(s, p, CharClass::Separator);
        if r < s.len() && s[r] == '"' {
            lemma_unescape_bounds(s, r + 1);
        } else if r < s.len() {
            lemma_skip_while_bounds(s, r, CharClass::NotComma);
        }
    }
}

/// The pairs of `s` from position `i`, or `None` where the scan meets a
/// malformed `NULL` token.
pub open spec fn parse_from(s: Seq<char>, i: int) -> Option<Seq<PairView>>
    decreases s.len() - i,
    via parse_from_decreases
{
    if 0 <= i <= s.len() {
        match scan_step(s, i) {
            ScanView::End => Some(Seq::empty()),
            ScanView::Malformed(_) => None,
            ScanView::Found(key, value, e) => match parse_from(s, e) {
                Some(rest) => Some(seq![(key, value)] + rest),
                None => None,
            },
        }
    } else {
        Some(Seq::empty())
    }
}

#[via_fn]
proof fn parse_from_decreases(s: Seq<char>, i: int) {
    if 0 <= i <= s.len() {
        lemma_scan_step_progress(s, i);
    }
}

/// The pairs of hstore text `s`, in order and with duplicates kept; `None`
/// where a value starts like `NULL` but is not that token.
pub open spec fn parse_sequence(s: Seq<char>) -> Option<Seq<PairView>> {
    parse_from(s, 0)
}

/// The mapping of hstore text `s`: its pairs inserted in order, a later pair
/// overwriting an earlier one with the same key.
pub open spec fn parse_mapping(s: Seq<char>) -> Option<Map<Seq<char>, Option<Seq<char>>>> {
    match parse_sequence(s) {
        Some(ps) => Some(fold_pairs(ps)),
        None => None,
    }
}

/// The key whose malformed `NULL` token stops the scan of `s` from `i`.
pub open spec fn malformed_key_from(s: Seq<char>, i: int) -> Seq<char>
    decreases s.len() - i,
    via malformed_key_from_decreases
{
    if 0 <= i <= s.len() {
        match scan_step(s, i) {
            ScanView::Malformed(key) => key,
            ScanView::Found(_, _, e) => malformed_key_from(s, e),
            ScanView::End => Seq::empty(),
        }
    } else {
        Seq::empty()
    }
}

#[via_fn]
proof fn malformed_key_from_decreases(s: Seq<char>, i: int) {
    if 0 <= i <= s.len() {
        lemma_scan_step_progress(s, i);
    }
}

fn char_in_class(c: char, class: CharClass) -> (r: bool)
    ensures
        r == in_class(c, class),
{
    match class {
        CharClass::NotQuote => c != '"',
        CharClass::Separator => c == ' ' || c == '=' || c == '>',
        CharClass::NotComma => c != ',',
    }
}

/// The first position at or after `i` whose character is not in `class`.
fn skip_chars_while(chars: &Vec<char>, i: usize, class: CharClass) -> (r: usize)
    requires
        i <= chars@.len(),
    ensures
        r == skip_while(chars@, i as int, class),
{
    let mut j: usize = i;
    while j < chars.len() && char_in_class(chars[j], class)
        invariant
            i <= j <= chars@.len(),
            skip_while(chars@, j as int, class) == skip_while(chars@, i as int, class),
        decreases chars@.len() - j,
    {
        j = j + 1;
    }
    j
}

/// Reads a quoted body from `start`, just past its opening quote: the
/// unescaped text and the position just past the closing quote.
fn collect_and_unescape(chars: &Vec<char>, start: usize) -> (r: (Vec<char>, usize))
    requires
        start <= chars@.len(),
    ensures
        unescape_from(chars@, start as int) == (r.0@, r.1 as int),
        start <= r.1 <= chars@.len(),
{
    let ghost s = chars@;
    let mut buf: Vec<char> = Vec::new();
    let mut j: usize = start;
    loop
        invariant_except_break
            unescape_from(s, start as int) == (buf@ + unescape_from(s, j as int).0,
                unescape_from(s, j as int).1),
        invariant
            start <= j <= s.len(),
            s == chars@,
        ensures
            start <= j <= s.len(),
            unescape_from(s, start as int) == (buf@, j as int),
        decreases s.len() - j,
    {
        if j >= chars.len() {
            assert(buf@ + Seq::<char>::empty() =~= buf@);
            break;
        }
        let c = chars[j];
        if c == '"' {
            assert(buf@ + Seq::<char>::empty() =~= buf@);
            j = j + 1;
            break;
        } else if c == '\\' {
            if j + 1 < chars.len() && (chars[j + 1] == '"' || chars[j + 1] == '\\') {
                let e = chars[j + 1];
                proof {
                    let rest = unescape_from(s, j + 2).0;
                    assert(buf@.push(e) + rest =~= buf@ + (seq![e] + rest));
                }
                buf.push(e);
                j = j + 2;
            } else {
                j = j + 1;
            }
        } else {
            proof {
                let rest = unescape_from(s, j + 1).0;
                assert(buf@.push(c) + rest =~= buf@ + (seq![c] + rest));
            }
            buf.push(c);
            j = j + 1;
        }
    }
    (buf, j)
}

/// Reads a value token from `start` up to the next comma: whether it is
/// `NULL`, and the position just past the comma (or the end).
fn is_null(chars: &Vec<char>, start: usize) -> (r: (bool, usize))
    requires
        start <= chars@.len(),
    ensures
        r.0 == is_null_token(chars@.subrange(start as int, skip_while(chars@, start as int, CharClass::NotComma))),
        r.1 == (if skip_while(chars@, start as int, CharClass::NotComma) < chars@.len() {
            skip_while(chars@, start as int, CharClass::NotComma) + 1
        } else {
            skip_while(chars@, start as int, CharClass::NotComma)
        }),
{
    let c = skip_chars_while(chars, start, CharClass::NotComma);
    proof {
        lemma_skip_while_bounds(chars@, start as int, CharClass::NotComma);
    }
    let null = c - start == 4 && (chars[start] == 'n' || chars[start] == 'N') && (chars[start + 1]
        == 'u' || chars[start + 1] == 'U') && (chars[start + 2] == 'l' || chars[start + 2] == 'L')
        && (chars[start + 3] == 'l' || chars[start + 3] == 'L');
    let next = if c < chars.len() {
        c + 1
    } else {
        c
    };
    (null, next)
}

/// The key whose value could not be read: it starts like `NULL` but is not
/// that token.
pub struct LoadError {
    pub key: String,
}

/// What one step of the scanner found.
enum Scan {
    End,
    Found(String, Option<String>, usize),
    Malformed(String),
}

impl Scan {
    spec fn view(&self) -> ScanView {
        match self {
            Scan::End => ScanView::End,
            Scan::Found(k, v, e) => ScanView::Found(k@, v.deep_view(), *e as int),
            Scan::Malformed(k) => ScanView::Malformed(k@),
        }
    }
}

/// One step of the scanner from position `i`.
fn scan_pair(chars: &Vec<char>, i: usize) -> (r: Scan)
    requires
        i <= chars@.len(),
    ensures
        r.view() == scan_step(chars@, i as int),
{
    let q = skip_chars_while(chars, i, CharClass::NotQuote);
    proof {
        lemma_skip_while_bounds(chars@, i as int, CharClass::NotQuote);
    }
    if q >= chars.len() {
        return Scan::End;
    }
    let (key, p) = collect_and_unescape(chars, q + 1);
    let r = skip_chars_while(chars, p, CharClass::Separator);
    proof {
        lemma_skip_while_bounds(chars@, p as int, CharClass::Separator);
    }
    if r < chars.len() && chars[r] == '"' {
        let (value, e) = collect_and_unescape(chars, r + 1);
        Scan::Found(string_from_chars(key), Some(string_from_chars(value)), e)
    } else if r < chars.len() && (chars[r] == 'N' || chars[r] == 'n') {
        let (null, e) = is_null(chars, r);
        if null {
            Scan::Found(string_from_chars(key), None, e)
        } else {
            Scan::Malformed(string_from_chars(key))
        }
    } else {
        Scan::End
    }
}

/// A scanner over hstore text that hands out its pairs one at a time.
pub struct HStoreParser {
    chars: Vec<char>,
    pos: usize,
}

impl View for HStoreParser {
    /// The text, and the position where the next scan starts.
    type V = (Seq<char>, int);

    closed spec fn view(&self) -> (Seq<char>, int) {
        (self.chars@, self.pos as int)
    }
}

impl HStoreParser {
    pub closed spec fn wf(&self) -> bool {
        self.pos <= self.chars@.len()
    }

    /// A scanner at the start of `hstore_string`.
    pub fn from(hstore_string: &String) -> (r: HStoreParser)
        ensures
            r.wf(),
            r@ == (hstore_string@, 0int),
    {
        HStoreParser { chars: chars_of(hstore_string.as_str()), pos: 0 }
    }

    /// The next pair, `Ok(None)` once there is none, or the error for a value
    /// that starts like `NULL` but is not. After the end the scanner stays at
    /// the end of the text; after an error it does not move.
    pub fn try_next(&mut self) -> (r: Result<Option<(String, Option<String>)>, LoadError>)
        requires
            old(self).wf(),
        ensures
            final(self).wf(),
            final(self)@.0 == old(self)@.0,
            match scan_step(old(self)@.0, old(self)@.1) {
                ScanView::End => r == Ok::<Option<(String, Option<String>)>, LoadError>(None)
                    && final(self)@.1 == old(self)@.0.len(),
                ScanView::Found(k, v, e) => r is Ok && r->Ok_0 is Some
                    && r->Ok_0->Some_0.deep_view() == (k, v) && final(self)@.1 == e,
                ScanView::Malformed(k) => r is Err && r->Err_0.key@ == k
                    && final(self)@.1 == old(self)@.1,
            },
    {
        proof {
            lemma_scan_step_progress(self.chars@, self.pos as int);
        }
        match scan_pair(&self.chars, self.pos) {
            Scan::End => {
                self.pos = self.chars.len();
                Ok(None)
            },
            Scan::Found(k, v, e) => {
                self.pos = e;
                Ok(Some((k, v)))
            },
            Scan::Malformed(k) => Err(LoadError { key: k }),
        }
    }

    /// The next pair, or `None` once there is none.
    pub fn next(&mut self) -> (r: Option<(String, Option<String>)>)
        requires
            old(self).wf(),
            !(scan_step(old(self)@.0, old(self)@.1) is Malformed),
        ensures
            final(self).wf(),
            final(self)@.0 == old(self)@.0,
            match scan_step(old(self)@.0, old(self)@.1) {
                ScanView::Found(k, v, e) => r is Some && r->Some_0.deep_view() == (k, v)
                    && final(self)@.1 == e,
                _ => r is None && final(self)@.1 == old(self)@.0.len(),
            },
    {
        match self.try_next() {
            Ok(r) => r,
            Err(_) => None,
        }
    }
}

/// `rest` after the pairs `done`, where the scan reached no error.
pub open spec fn prepend_pairs(done: Seq<PairView>, rest: Option<Seq<PairView>>) -> Option<Seq<PairView>> {
    match rest {
        Some(r) => Some(done + r),
        None => None,
    }
}

/// The pairs of `hstore_string` in order, duplicates kept, or the error for
/// the first value that starts like `NULL` but is not.
pub fn try_load_into_vec(hstore_string: &str) -> (r: Result<Vec<(String, Option<String>)>, LoadError>)
    ensures
        match parse_sequence(hstore_string@) {
            Some(ps) => r is Ok && r->Ok_0.deep_view() == ps,
            None => r is Err && r->Err_0.key@ == malformed_key_from(hstore_string@, 0),
        },
{
    let ghost s = hstore_string@;
    let mut parser = HStoreParser { chars: chars_of(hstore_string), pos: 0 };
    let mut out: Vec<(String, Option<String>)> = Vec::new();
    loop
        invariant
            parser.wf(),
            parser.chars@ == s,
            s == hstore_string@,
            parse_sequence(s) == prepend_pairs(out.deep_view(), parse_from(s, parser.pos as int)),
            malformed_key_from(s, 0) == malformed_key_from(s, parser.pos as int),
        decreases s.len() - parser.pos,
    {
        let ghost before = parser.pos as int;
        proof {
            lemma_scan_step_progress(s, before);
        }
        match parser.try_next() {
            Ok(Some(pair)) => {
                proof {
                    let ps = parse_from(s, parser.pos as int);
                    if ps is Some {
                        assert(out.deep_view().push(pair.deep_view()) + ps->Some_0 =~= out.deep_view()
                            + (seq![pair.deep_view()] + ps->Some_0));
                    }
                }
                let ghost prev = out.deep_view();
                let ghost pv = pair.deep_view();
                out.push(pair);
                proof {
                    assert(out.deep_view() =~= prev.push(pv));
                }
            },
            Ok(None) => {
                assert(scan_step(s, before) is End);
                assert(parse_from(s, before) == Some(Seq::<PairView>::empty()));
                assert(out.deep_view() + Seq::<PairView>::empty() =~= out.deep_view());
                return Ok(out);
            },
            Err(e) => {
                assert(scan_step(s, before) is Malformed);
                assert(parse_from(s, before) is None);
                return Err(e);
            },
        }
    }
}

/// The pairs of `hstore_string` in order, duplicates kept.
pub fn load_into_vec(hstore_string: &str) -> (r: Vec<(String, Option<String>)>)
    requires
        parse_sequence(hstore_string@) is Some,
    ensures
        r.deep_view() == parse_sequence(hstore_string@)->Some_0,
{
    match try_load_into_vec(hstore_string) {
        Ok(v) => v,
        Err(_) => Vec::new(),
    }
}

/// The mapping of `hstore_string`: a later pair overwrites an earlier one
/// with the same key.
pub fn load_into_hashmap(hstore_string: &str) -> (r: PairMap)
    requires
        parse_sequence(hstore_string@) is Some,
    ensures
        r.wf(),
        parse_mapping(hstore_string@) == Some(r@),
{
    PairMap::from_pairs(load_into_vec(hstore_string))
}

} // verus!
