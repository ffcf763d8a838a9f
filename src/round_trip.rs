//! Rendered text parses back to what was rendered.
use vstd::prelude::*;

use crate::dump::{escape_char, escape_text, null_token, render_all, render_pair};
use crate::load::{
    in_class, is_escapable, is_null_token, parse_from, parse_mapping, parse_sequence, scan_step,
    skip_while, unescape_from, CharClass, PairView, ScanView,
};
use crate::pair_map::{fold_pairs, PairMap};

verus! {

proof fn lemma_escape_front(t: Seq<char>)
    requires
        t.len() > 0,
    ensures
        escape_text(t) == escape_char(t[0]) + escape_text(t.drop_first()),
    decreases t.len(),
{
    if t.len() == 1 {
        assert(t.drop_last() =~= Seq::<char>::empty());
        assert(t.drop_first() =~= Seq::<char>::empty());
        assert(escape_text(t) =~= escape_char(t[0]) + escape_text(t.drop_first()));
    } else {
        lemma_escape_front(t.drop_last());
        assert(t.drop_last().drop_first() =~= t.drop_first().drop_last());
        assert(escape_text(t) =~= escape_char(t[0]) + escape_text(t.drop_first()));
    }
}

/// An escaped text followed by a quote unescapes to the text, and the scan
/// stops just past that quote.
proof fn lemma_unescape_escaped(s: Seq<char>, i: int, t: Seq<char>)
    requires
        0 <= i,
        i + escape_text(t).len() < s.len(),
        s.subrange(i, i + escape_text(t).len()) == escape_text(t),
        s[i + escape_text(t).len()] == '"',
    ensures
        unescape_from(s, i) == (t, i + escape_text(t).len() + 1),
    decreases t.len(),
{
    let et = escape_text(t);
    if t.len() == 0 {
        assert(unescape_from(s, i) == (t, i + 1));
    } else {
        let c = t[0];
        let rest = t.drop_first();
        lemma_escape_front(t);
        let n = escape_char(c).len() as int;
        assert(s.subrange(i, i + et.len())[0] == s[i]);
        assert(s.subrange(i + n, i + et.len()) =~= escape_text(rest)) by {
            assert forall|j: int| 0 <= j < escape_text(rest).len() implies s.subrange(
                i + n,
                i + et.len(),
            )[j] == escape_text(rest)[j] by {
                assert(s.subrange(i, i + et.len())[n + j] == s[i + n + j]);
                assert(et[n + j] == escape_text(rest)[j]);
            }
        }
        if is_escapable(c) {
            assert(s.subrange(i, i + et.len())[1] == s[i + 1]);
        }
        lemma_unescape_escaped(s, i + n, rest);
        assert(t =~= seq![c] + rest);
    }
}

/// One scanner step over a rendered pair that ends the text or precedes a
/// comma finds that pair.
proof fn lemma_scan_rendered(s: Seq<char>, i: int, k: Seq<char>, v: Option<Seq<char>>)
    requires
        0 <= i,
        i + render_pair(k, v).len() <= s.len(),
        s.subrange(i, i + render_pair(k, v).len()) == render_pair(k, v),
        i + render_pair(k, v).len() == s.len() || s[i + render_pair(k, v).len()] == ',',
    ensures
        scan_step(s, i) == ScanView::Found(
            k,
            v,
            match v {
                Some(_) => i + render_pair(k, v).len(),
                None => if i + render_pair(k, v).len() < s.len() {
                    i + render_pair(k, v).len() + 1
                } else {
                    i + render_pair(k, v).len()
                },
            },
        ),
{
    let rp = render_pair(k, v);
    let len = rp.len() as int;
    let ek = escape_text(k);
    let n = ek.len() as int;
    let sub = s.subrange(i, i + len);
    assert forall|j: int| 0 <= j < len implies s[i + j] == rp[j] by {
        assert(sub[j] == s[i + j]);
    }
    assert(rp[0] == '"');
    assert(skip_while(s, i, CharClass::NotQuote) == i);
    assert(s.subrange(i + 1, i + 1 + n) =~= ek) by {
        assert forall|j: int| 0 <= j < n implies s.subrange(i + 1, i + 1 + n)[j]
            == ek[j] by {
            assert(rp[1 + j] == ek[j]);
        }
    }
    assert(rp[1 + n] == '"');
    lemma_unescape_escaped(s, i + 1, k);
    let p = i + 2 + n;
    assert(rp[2 + n] == '=');
    assert(rp[3 + n] == '>');
    assert(in_class(s[p], CharClass::Separator));
    assert(in_class(s[p + 1], CharClass::Separator));
    match v {
        Some(val) => {
            let ev = escape_text(val);
            let m = ev.len() as int;
            assert(rp[4 + n] == '"');
            assert(!in_class(s[p + 2], CharClass::Separator));
            assert(skip_while(s, p + 2, CharClass::Separator) == p + 2);
            assert(skip_while(s, p + 1, CharClass::Separator) == p + 2);
            assert(skip_while(s, p, CharClass::Separator) == p + 2);
            assert(s.subrange(p + 3, p + 3 + m) =~= ev) by {
                assert forall|j: int| 0 <= j < m implies s.subrange(
                    p + 3,
                    p + 3 + m,
                )[j] == ev[j] by {
                    assert(rp[5 + n + j] == ev[j]);
                }
            }
            assert(rp[5 + n + m] == '"');
            lemma_unescape_escaped(s, p + 3, val);
        },
        None => {
            let r = p + 2;
            assert(rp[4 + n] == 'N');
            assert(rp[5 + n] == 'U');
            assert(rp[6 + n] == 'L');
            assert(rp[7 + n] == 'L');
            assert(len == 8 + n);
            assert(!in_class(s[r], CharClass::Separator));
            assert(skip_while(s, r, CharClass::Separator) == r);
            assert(skip_while(s, p + 1, CharClass::Separator) == r);
            assert(skip_while(s, p, CharClass::Separator) == r);
            assert(skip_while(s, r + 4, CharClass::NotComma) == r + 4);
            assert(skip_while(s, r + 3, CharClass::NotComma) == r + 4);
            assert(skip_while(s, r + 2, CharClass::NotComma) == r + 4);
            assert(skip_while(s, r + 1, CharClass::NotComma) == r + 4);
            assert(skip_while(s, r, CharClass::NotComma) == r + 4);
            assert(is_null_token(s.subrange(r, r + 4)));
        },
    }
}

proof fn lemma_render_all_front(ps: Seq<PairView>)
    requires
        ps.len() >= 2,
    ensures
        render_all(ps) == render_pair(ps[0].0, ps[0].1) + seq![','] + render_all(ps.drop_first()),
    decreases ps.len(),
{
    if ps.len() == 2 {
        assert(render_all(ps.drop_last()) == render_pair(ps[0].0, ps[0].1));
        assert(render_all(ps.drop_first()) == render_pair(ps[1].0, ps[1].1));
    } else {
        lemma_render_all_front(ps.drop_last());
        assert(ps.drop_last().drop_first() =~= ps.drop_first().drop_last());
        assert(render_all(ps) =~= render_pair(ps[0].0, ps[0].1) + seq![','] + render_all(
            ps.drop_first(),
        ));
    }
}

/// A comma before the next quote does not change what the scan finds.
proof fn lemma_parse_past_comma(s: Seq<char>, c: int)
    requires
        0 <= c < s.len(),
        s[c] == ',',
    ensures
        parse_from(s, c) == parse_from(s, c + 1),
{
    assert(skip_while(s, c, CharClass::NotQuote) == skip_while(s, c + 1, CharClass::NotQuote));
    assert(scan_step(s, c) == scan_step(s, c + 1));
}

proof fn lemma_split_suffix(s: Seq<char>, i: int, a: Seq<char>, b: Seq<char>)
    requires
        0 <= i <= s.len(),
        s.subrange(i, s.len() as int) == a + b,
    ensures
        i + a.len() + b.len() == s.len(),
        s.subrange(i, i + a.len()) == a,
        s.subrange(i + a.len(), s.len() as int) == b,
        forall|j: int| 0 <= j < b.len() ==> s[i + a.len() + j] == b[j],
{
    let sub = s.subrange(i, s.len() as int);
    assert(sub.len() == s.len() - i);
    assert forall|j: int| 0 <= j < a.len() + b.len() implies s[i + j] == (a + b)[j] by {
        assert(sub[j] == s[i + j]);
    }
    assert forall|j: int| 0 <= j < b.len() implies s[i + a.len() + j] == b[j] by {
        assert((a + b)[a.len() + j] == b[j]);
    }
    assert(s.subrange(i, i + a.len()) =~= a) by {
        assert forall|j: int| 0 <= j < a.len() implies s.subrange(i, i + a.len())[j] == a[j] by {
            assert((a + b)[j] == a[j]);
        }
    }
    assert(s.subrange(i + a.len(), s.len() as int) =~= b);
}

/// The text from `i` on, if it is a rendering of `ps`, parses to `ps`.
proof fn lemma_parse_rendered(s: Seq<char>, i: int, ps: Seq<PairView>)
    requires
        0 <= i <= s.len(),
        s.subrange(i, s.len() as int) == render_all(ps),
    ensures
        parse_from(s, i) == Some(ps),
    decreases ps.len(),
{
    if ps.len() == 0 {
        assert(i == s.len());
        assert(scan_step(s, i) is End);
        assert(ps =~= Seq::<PairView>::empty());
    } else {
        let k = ps[0].0;
        let v = ps[0].1;
        let len = render_pair(k, v).len() as int;
        if ps.len() == 1 {
            lemma_split_suffix(s, i, render_pair(k, v), Seq::empty());
            lemma_scan_rendered(s, i, k, v);
            assert(scan_step(s, s.len() as int) is End);
            assert(ps =~= seq![(k, v)] + Seq::<PairView>::empty());
        } else {
            lemma_render_all_front(ps);
            let rest = render_all(ps.drop_first());
            assert(render_all(ps) =~= render_pair(k, v) + (seq![','] + rest));
            lemma_split_suffix(s, i, render_pair(k, v), seq![','] + rest);
            assert((seq![','] + rest)[0] == ',');
            assert(s[i + len + 0] == (seq![','] + rest)[0]);
            lemma_scan_rendered(s, i, k, v);
            lemma_split_suffix(s, i + len, seq![','], rest);
            assert(seq![','].len() == 1);
            lemma_parse_rendered(s, i + len + 1, ps.drop_first());
            if v is Some {
                lemma_parse_past_comma(s, i + len);
            }
            assert(ps =~= seq![(k, v)] + ps.drop_first());
        }
    }
}

/// Any sequence of pairs, rendered and joined by commas, parses back to the
/// same sequence.
pub proof fn lemma_render_all_round_trip(ps: Seq<PairView>)
    ensures
        parse_sequence(render_all(ps)) == Some(ps),
{
    let s = render_all(ps);
    assert(s.subrange(0, s.len() as int) =~= s);
    lemma_parse_rendered(s, 0, ps);
}

/// A rendered pair with a value parses back to exactly that pair.
pub proof fn lemma_pair_round_trip(k: Seq<char>, v: Seq<char>)
    ensures
        parse_sequence(render_pair(k, Some(v))) == Some(seq![(k, Some(v))]),
{
    lemma_render_all_round_trip(seq![(k, Some(v))]);
}

/// A rendered pair without a value parses back to exactly that pair.
pub proof fn lemma_null_pair_round_trip(k: Seq<char>)
    ensures
        parse_sequence(render_pair(k, None)) == Some(seq![(k, None::<Seq<char>>)]),
{
    lemma_render_all_round_trip(seq![(k, None::<Seq<char>>)]);
}

/// Of two pairs with the same key, the mapping keeps the later value.
pub proof fn lemma_duplicate_key_last_wins(k: Seq<char>, v1: Option<Seq<char>>, v2: Option<Seq<char>>)
    ensures
        parse_mapping(render_pair(k, v1) + seq![','] + render_pair(k, v2)) == Some(
            Map::<Seq<char>, Option<Seq<char>>>::empty().insert(k, v2),
        ),
{
    let ps = seq![(k, v1), (k, v2)];
    let first = seq![(k, v1)];
    assert(ps.drop_last() =~= first);
    assert(first[0] == (k, v1));
    assert(render_all(first) == render_pair(k, v1));
    assert(ps.last() == (k, v2));
    assert(render_all(ps) == render_pair(k, v1) + seq![','] + render_pair(k, v2));
    lemma_render_all_round_trip(ps);
    assert(first.drop_last() =~= Seq::<PairView>::empty());
    assert(first.last() == (k, v1));
    assert(fold_pairs(Seq::<PairView>::empty()) == Map::<Seq<char>, Option<Seq<char>>>::empty());
    assert(fold_pairs(first) == Map::<Seq<char>, Option<Seq<char>>>::empty().insert(k, v1));
    assert(fold_pairs(ps) =~= Map::<Seq<char>, Option<Seq<char>>>::empty().insert(k, v2));
}

/// The rendering of a mapping parses back to an equal mapping.
pub proof fn lemma_mapping_round_trip(m: &PairMap)
    ensures
        parse_mapping(render_all(m.pairs())) == Some(m@),
{
    lemma_render_all_round_trip(m.pairs());
}

} // verus!
