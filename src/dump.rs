//! Rendering pairs and mappings as hstore text.
use vstd::prelude::*;

use crate::load::{is_escapable, PairView};
use crate::pair_map::PairMap;
use crate::text::{chars_of, string_from_chars};

verus! {

/// One character as it stands inside a quoted body.
pub open spec fn escape_char(c: char) -> Seq<char> {
    if is_escapable(c) {
        seq!['\\', c]
    } else {
        seq![c]
    }
}

/// `t` with each `\` written `\\` and each `"` written `\"`.
pub open spec fn escape_text(t: Seq<char>) -> Seq<char>
    decreases t.len(),
{
    if t.len() == 0 {
        Seq::empty()
    } else {
        escape_text(t.drop_last()) + escape_char(t.last())
    }
}

/// The `NULL` token.
pub open spec fn null_token() -> Seq<char> {
    seq!['N', 'U', 'L', 'L']
}

/// `"key"=>"value"`, or `"key"=>NULL` for an absent value, both escaped.
pub open spec fn render_pair(key: Seq<char>, value: Option<Seq<char>>) -> Seq<char> {
    seq!['"'] + escape_text(key) + seq!['"', '=', '>'] + match value {
        Some(v) => seq!['"'] + escape_text(v) + seq!['"'],
        None => null_token(),
    }
}

/// The rendered pairs of `ps`, in order, joined by commas.
pub open spec fn render_all(ps: Seq<PairView>) -> Seq<char>
    decreases ps.len(),
{
    if ps.len() == 0 {
        Seq::empty()
    } else if ps.len() == 1 {
        render_pair(ps[0].0, ps[0].1)
    } else {
        render_all(ps.drop_last()) + seq![','] + render_pair(ps.last().0, ps.last().1)
    }
}

/// Appends the escaped form of `t` to `out`.
fn push_escaped(out: &mut Vec<char>, t: &Vec<char>)
    ensures
        final(out)@ == old(out)@ + escape_text(t@),
{
    let ghost start = out@;
    let mut i: usize = 0;
    while i < t.len()
        invariant
            i <= t@.len(),
            out@ == start + escape_text(t@.take(i as int)),
        decreases t@.len() - i,
    {
        let c = t[i];
        proof {
            assert(t@.take(i + 1).drop_last() =~= t@.take(i as int));
        }
        if c == '"' || c == '\\' {
            out.push('\\');
            out.push(c);
            assert(out@ =~= start + escape_text(t@.take(i + 1)));
        } else {
            out.push(c);
            assert(out@ =~= start + escape_text(t@.take(i + 1)));
        }
        i = i + 1;
    }
    assert(t@.take(i as int) =~= t@);
}

/// `to_escape` with each `\` written `\\` and each `"` written `\"`.
pub fn escape(to_escape: &String) -> (r: String)
    ensures
        r@ == escape_text(to_escape@),
{
    let mut out: Vec<char> = Vec::new();
    push_escaped(&mut out, &chars_of(to_escape.as_str()));
    assert(out@ =~= escape_text(to_escape@));
    string_from_chars(out)
}

/// Appends the rendered pair to `out`.
fn push_pair(out: &mut Vec<char>, key: &String, value: &Option<String>)
    ensures
        final(out)@ == old(out)@ + render_pair(key@, value.deep_view()),
{
    let ghost start = out@;
    out.push('"');
    push_escaped(out, &chars_of(key.as_str()));
    out.push('"');
    out.push('=');
    out.push('>');
    match value {
        Some(v) => {
            out.push('"');
            push_escaped(out, &chars_of(v.as_str()));
            out.push('"');
        },
        None => {
            out.push('N');
            out.push('U');
            out.push('L');
            out.push('L');
        },
    }
    assert(out@ =~= start + render_pair(key@, value.deep_view()));
}

/// The hstore text of one pair: `"key"=>"value"`, or `"key"=>NULL`.
pub fn dump_keypair(key: &String, value: &Option<String>) -> (r: String)
    ensures
        r@ == render_pair(key@, value.deep_view()),
{
    let mut out: Vec<char> = Vec::new();
    push_pair(&mut out, key, value);
    assert(out@ =~= render_pair(key@, value.deep_view()));
    string_from_chars(out)
}

/// The hstore text of `map`: its pairs in order, joined by commas.
pub fn dump_hashmap(map: &PairMap) -> (r: String)
    ensures
        r@ == render_all(map.pairs()),
{
    let entries = map.entries();
    let ghost ps = entries.deep_view();
    let mut out: Vec<char> = Vec::new();
    let mut i: usize = 0;
    while i < entries.len()
        invariant
            ps == entries.deep_view(),
            i <= entries@.len(),
            out@ == render_all(ps.take(i as int)),
        decreases entries@.len() - i,
    {
        let ghost before = out@;
        if i > 0 {
            out.push(',');
        }
        push_pair(&mut out, &entries[i].0, &entries[i].1);
        proof {
            assert(ps.take(i + 1).drop_last() =~= ps.take(i as int));
            if i == 0 {
                assert(before =~= Seq::<char>::empty());
            }
            assert(out@ =~= render_all(ps.take(i + 1)));
        }
        i = i + 1;
    }
    assert(ps.take(i as int) =~= ps);
    string_from_chars(out)
}

} // verus!
