//! Strings ordered as Rust orders them: lexicographically by their UTF-8 bytes.

use vstd::prelude::*;
use vstd::utf8::{encode_utf8, encode_utf8_decode_utf8};
use std::cmp::Ordering;
use crate::order::{cmp_from, lemma_seq_cmp_order, seq_cmp};

verus! {

/// The character sequences of a sequence of strings.
pub open spec fn views_of(v: Seq<String>) -> Seq<Seq<char>> {
    v.map_values(|x: String| x@)
}

pub open spec fn byte_ints(b: Seq<u8>) -> Seq<int> {
    b.map_values(|x: u8| x as int)
}

/// The comparison key of a string: its UTF-8 bytes.
pub open spec fn text_key(s: Seq<char>) -> Seq<int> {
    byte_ints(encode_utf8(s))
}

pub open spec fn text_cmp(a: Seq<char>, b: Seq<char>) -> Ordering {
    seq_cmp(text_key(a), text_key(b))
}

pub open spec fn text_lt(a: Seq<char>, b: Seq<char>) -> bool {
    text_cmp(a, b) == Ordering::Less
}

pub open spec fn text_le(a: Seq<char>, b: Seq<char>) -> bool {
    text_cmp(a, b) != Ordering::Greater
}

/// Strictly ascending in byte order, so without repeats.
pub open spec fn strictly_ascending(s: Seq<Seq<char>>) -> bool {
    forall|i: int, j: int| 0 <= i < j < s.len() ==> text_lt(#[trigger] s[i], #[trigger] s[j])
}

/// Byte order is a total order, and two strings compare equal only when they
/// are the same string.
pub proof fn lemma_text_order(a: Seq<char>, b: Seq<char>, c: Seq<char>)
    ensures
        text_cmp(a, a) == Ordering::Equal,
        text_cmp(a, b) == Ordering::Equal <==> a == b,
        text_lt(a, b) <==> text_cmp(b, a) == Ordering::Greater,
        text_le(a, b) && text_le(b, c) ==> text_le(a, c),
        text_lt(a, b) && text_le(b, c) ==> text_lt(a, c),
        text_le(a, b) && text_lt(b, c) ==> text_lt(a, c),
{
    lemma_seq_cmp_order(text_key(a), text_key(b), text_key(c));
    if text_key(a) == text_key(b) {
        let ea = encode_utf8(a);
        let eb = encode_utf8(b);
        assert(ea.len() == byte_ints(ea).len());
        assert forall|i: int| 0 <= i < ea.len() implies ea[i] == eb[i] by {
            assert(byte_ints(ea)[i] == byte_ints(eb)[i]);
        }
        assert(ea =~= eb);
        encode_utf8_decode_utf8(a);
        encode_utf8_decode_utf8(b);
    }
}

/// Compares two strings byte by byte, as `str`'s `Ord` does.
pub fn compare_text(a: &str, b: &str) -> (r: Ordering)
    ensures
        r == text_cmp(a@, b@),
{
    let ab = a.as_bytes();
    let bb = b.as_bytes();
    let ghost sa = byte_ints(ab@);
    let ghost sb = byte_ints(bb@);
    let mut i: usize = 0;
    while i < ab.len() && i < bb.len()
        invariant
            sa == text_key(a@),
            sb == text_key(b@),
            sa == byte_ints(ab@),
            sb == byte_ints(bb@),
            sa.len() == ab@.len(),
            sb.len() == bb@.len(),
            0 <= i <= ab@.len(),
            i <= bb@.len(),
            seq_cmp(sa, sb) == cmp_from(sa, sb, i as int),
        decreases ab@.len() - i,
    {
        assert(sa[i as int] == ab@[i as int] as int && sb[i as int] == bb@[i as int] as int);
        if ab[i] < bb[i] {
            assert(cmp_from(sa, sb, i as int) == Ordering::Less);
            return Ordering::Less;
        } else if ab[i] > bb[i] {
            assert(cmp_from(sa, sb, i as int) == Ordering::Greater);
            return Ordering::Greater;
        }
        i = i + 1;
    }
    if ab.len() < bb.len() {
        Ordering::Less
    } else if ab.len() > bb.len() {
        Ordering::Greater
    } else {
        Ordering::Equal
    }
}

/// Relies on `slice::sort` of std on `String`s: the same strings, each as
/// often, in ascending order, which for `str` is byte-wise lexicographic.
#[verifier::external_body]
pub(crate) fn sort_strings(v: &mut Vec<String>)
    ensures
        views_of(final(v)@).to_multiset() == views_of(old(v)@).to_multiset(),
        forall|i: int, j: int|
            0 <= i < j < final(v)@.len() ==> text_le(#[trigger] final(v)@[i]@, #[trigger] final(v)@[j]@),
{
    v.sort();
}

/// The characters of a string, in order.
pub(crate) fn chars_of(s: &str) -> (r: Vec<char>)
    ensures
        r@ == s@,
{
    let mut out: Vec<char> = Vec::new();
    for c in it: s.chars()
        invariant
            it.seq() == s@,
            out@ == it.seq().subrange(0, it.index() as int),
    {
        out.push(c);
        assert(out@ =~= it.seq().subrange(0, it.index() as int + 1));
    }
    out
}

/// Relies on `String`'s `FromIterator<char>` (std): the string of the given
/// characters, in order.
#[verifier::external_body]
fn string_of_chars(chars: &Vec<char>) -> (r: String)
    ensures
        r@ == chars@,
{
    chars.iter().collect()
}

/// The strings joined with newlines, as a file holds its lines.
pub open spec fn newline_joined(items: Seq<Seq<char>>) -> Seq<char>
    decreases items.len(),
{
    if items.len() == 0 {
        Seq::empty()
    } else if items.len() == 1 {
        items[0]
    } else {
        newline_joined(items.drop_last()) + "\n"@ + items.last()
    }
}

/// The text of a file holding the given lines.
pub fn join_lines(lines: &Vec<String>) -> (r: String)
    ensures
        r@ == newline_joined(views_of(lines@)),
{
    let mut out = String::new();
    let mut i: usize = 0;
    while i < lines.len()
        invariant
            0 <= i <= lines.len(),
            out@ == newline_joined(views_of(lines@.subrange(0, i as int))),
        decreases lines.len() - i,
    {
        assert(views_of(lines@.subrange(0, i as int + 1)).drop_last() =~= views_of(
            lines@.subrange(0, i as int),
        ));
        if i > 0 {
            out.append("\n");
        }
        out.append(lines[i].as_str());
        assert(out@ =~= newline_joined(views_of(lines@.subrange(0, i as int + 1))));
        i = i + 1;
    }
    assert(lines@.subrange(0, i as int) =~= lines@);
    out
}

/// The pieces of `s` between newline characters; an empty string is one
/// empty piece.
pub open spec fn newline_pieces(s: Seq<char>) -> Seq<Seq<char>>
    decreases s.len(),
{
    if s.len() == 0 {
        seq![Seq::empty()]
    } else {
        let p = newline_pieces(s.drop_last());
        if s.last() == '\n' {
            p.push(Seq::empty())
        } else {
            p.update(p.len() - 1, p.last().push(s.last()))
        }
    }
}

/// A piece without the carriage return that ends it, if one does.
pub open spec fn strip_cr(x: Seq<char>) -> Seq<char> {
    if x.len() > 0 && x.last() == '\r' {
        x.drop_last()
    } else {
        x
    }
}

pub open spec fn strip_each(p: Seq<Seq<char>>) -> Seq<Seq<char>> {
    p.map_values(|x: Seq<char>| strip_cr(x))
}

/// The lines of a text: the pieces between newlines, a piece ended by a
/// newline losing one carriage return before it, and no empty last line
/// after a final newline.
pub open spec fn text_lines(s: Seq<char>) -> Seq<Seq<char>> {
    let p = newline_pieces(s);
    if p.last().len() == 0 {
        strip_each(p.drop_last())
    } else {
        strip_each(p.drop_last()).push(p.last())
    }
}

proof fn lemma_pieces_nonempty(s: Seq<char>)
    ensures
        newline_pieces(s).len() >= 1,
    decreases s.len(),
{
    if s.len() > 0 {
        lemma_pieces_nonempty(s.drop_last());
    }
}

/// Splits the text of a file into its lines.
pub fn split_lines(text: &str) -> (r: Vec<String>)
    ensures
        views_of(r@) == text_lines(text@),
{
    let chars = chars_of(text);
    let mut out: Vec<String> = Vec::new();
    let mut cur: Vec<char> = Vec::new();
    let mut i: usize = 0;
    while i < chars.len()
        invariant
            chars@ == text@,
            0 <= i <= chars@.len(),
            newline_pieces(text@.subrange(0, i as int)).len() >= 1,
            views_of(out@) == strip_each(newline_pieces(text@.subrange(0, i as int)).drop_last()),
            cur@ == newline_pieces(text@.subrange(0, i as int)).last(),
        decreases chars@.len() - i,
    {
        let c = chars[i];
        let ghost prev = text@.subrange(0, i as int);
        let ghost next = text@.subrange(0, i as int + 1);
        let ghost p = newline_pieces(prev);
        assert(next.drop_last() =~= prev);
        assert(next.last() == c);
        proof {
            lemma_pieces_nonempty(next);
        }
        if c == '\n' {
            let ghost old_out = views_of(out@);
            let n = cur.len();
            if n > 0 && cur[n - 1] == '\r' {
                cur.pop();
                assert(cur@ =~= strip_cr(p.last()));
            }
            let line = string_of_chars(&cur);
            out.push(line);
            cur = Vec::new();
            proof {
                assert(newline_pieces(next) == p.push(Seq::empty()));
                assert(newline_pieces(next).drop_last() =~= p);
                assert(views_of(out@) =~= old_out.push(strip_cr(p.last())));
                assert(strip_each(p) =~= strip_each(p.drop_last()).push(strip_cr(p.last())));
                assert(cur@ =~= newline_pieces(next).last());
            }
        } else {
            cur.push(c);
            proof {
                let q = newline_pieces(next);
                assert(q == p.update(p.len() - 1, p.last().push(c)));
                assert(q.drop_last() =~= p.drop_last());
                assert(cur@ =~= q.last());
            }
        }
        i = i + 1;
    }
    assert(text@.subrange(0, i as int) =~= text@);
    if cur.len() > 0 {
        let line = string_of_chars(&cur);
        let ghost old_out = views_of(out@);
        out.push(line);
        assert(views_of(out@) =~= old_out.push(cur@));
    }
    out
}

proof fn lemma_pieces_append(a: Seq<char>, b: Seq<char>)
    requires
        !b.contains('\n'),
    ensures
        newline_pieces(a + b) == newline_pieces(a).update(
            newline_pieces(a).len() - 1,
            newline_pieces(a).last() + b,
        ),
    decreases b.len(),
{
    lemma_pieces_nonempty(a);
    if b.len() == 0 {
        assert(a + b =~= a);
        assert(newline_pieces(a).last() + b =~= newline_pieces(a).last());
        assert(newline_pieces(a).update(newline_pieces(a).len() - 1, newline_pieces(a).last())
            =~= newline_pieces(a));
    } else {
        let b1 = b.drop_last();
        let c = b.last();
        assert(!b1.contains('\n')) by {
            if b1.contains('\n') {
                let j = choose|j: int| 0 <= j < b1.len() && b1[j] == '\n';
                assert(b[j] == '\n');
            }
        }
        assert(c != '\n') by {
            assert(b[b.len() - 1] == c);
        }
        lemma_pieces_append(a, b1);
        assert((a + b).drop_last() =~= a + b1);
        assert((a + b).last() == c);
        let p = newline_pieces(a);
        let q = newline_pieces(a + b1);
        assert(q.last() == p.last() + b1);
        assert(q.last().push(c) =~= p.last() + b);
        assert(q.update(q.len() - 1, q.last().push(c)) =~= p.update(p.len() - 1, p.last() + b));
    }
}

proof fn lemma_pieces_of_joined(items: Seq<Seq<char>>)
    requires
        items.len() >= 1,
        forall|i: int| 0 <= i < items.len() ==> !(#[trigger] items[i]).contains('\n'),
    ensures
        newline_pieces(newline_joined(items)) == items,
    decreases items.len(),
{
    if items.len() == 1 {
        lemma_pieces_append(Seq::empty(), items[0]);
        assert(Seq::<char>::empty() + items[0] =~= items[0]);
        assert(seq![Seq::<char>::empty()].update(0, Seq::<char>::empty() + items[0]) =~= items);
    } else {
        let init = items.drop_last();
        assert forall|i: int| 0 <= i < init.len() implies !(#[trigger] init[i]).contains('\n') by {
            assert(init[i] == items[i]);
        }
        lemma_pieces_of_joined(init);
        let j = newline_joined(init);
        reveal_strlit("\n");
        assert("\n"@ =~= seq!['\n']);
        let jn = j.push('\n');
        assert(jn.drop_last() =~= j);
        assert(newline_pieces(jn) == init.push(Seq::empty()));
        assert(!items.last().contains('\n')) by {
            assert(items[items.len() - 1] == items.last());
        }
        lemma_pieces_append(jn, items.last());
        assert(j + "\n"@ + items.last() =~= jn + items.last());
        assert(Seq::<char>::empty() + items.last() =~= items.last());
        assert(init.push(Seq::empty()).update(init.len() as int, items.last()) =~= items);
    }
}

/// Lines written with newlines between them read back as the same lines,
/// provided none holds a newline, none but the last ends with a carriage
/// return, and the last is not empty.
pub proof fn lemma_lines_round_trip(items: Seq<Seq<char>>)
    requires
        forall|i: int| 0 <= i < items.len() ==> !(#[trigger] items[i]).contains('\n'),
        forall|i: int|
            0 <= i < items.len() - 1 ==> !((#[trigger] items[i]).len() > 0 && items[i].last()
                == '\r'),
        items.len() > 0 ==> items.last().len() > 0,
    ensures
        text_lines(newline_joined(items)) == items,
{
    if items.len() == 0 {
        assert(newline_joined(items) == Seq::<char>::empty());
        assert(strip_each(seq![Seq::<char>::empty()].drop_last()) =~= items);
    } else {
        lemma_pieces_of_joined(items);
        let init = items.drop_last();
        assert(strip_each(init) =~= init) by {
            assert forall|i: int| 0 <= i < init.len() implies strip_each(init)[i] == init[i] by {
                assert(init[i] == items[i]);
            }
        }
        assert(init.push(items.last()) =~= items);
    }
}

/// A sequence with one more element at its end holds what it held and that
/// element.
pub proof fn lemma_contains_push<A>(s: Seq<A>, a: A, x: A)
    ensures
        s.push(a).contains(x) <==> (s.contains(x) || x == a),
{
    if s.push(a).contains(x) {
        let w = choose|w: int| 0 <= w < s.len() + 1 && s.push(a)[w] == x;
        if w < s.len() {
            assert(s[w] == x);
        }
    }
    if s.contains(x) {
        let w = choose|w: int| 0 <= w < s.len() && s[w] == x;
        assert(s.push(a)[w] == x);
    }
    if x == a {
        assert(s.push(a)[s.len() as int] == x);
    }
}

} // verus!
