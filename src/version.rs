//! Version identifiers: dotted strings of numeric segments, ordered segment by
//! segment, with a segment that does not parse counting as zero.

use vstd::prelude::*;
use std::cmp::Ordering;
use crate::order::{flip, lemma_seq_cmp_order, seq_cmp};
use crate::text::views_of;

verus! {

pub open spec fn is_digit(c: char) -> bool {
    '0' <= c && c <= '9'
}

pub open spec fn digit_value(c: char) -> int {
    c as int - '0' as int
}

pub open spec fn all_digits(d: Seq<char>) -> bool {
    forall|i: int| 0 <= i < d.len() ==> is_digit(#[trigger] d[i])
}

/// The number written by a string of decimal digits.
pub open spec fn digits_value(d: Seq<char>) -> int
    decreases d.len(),
{
    if d.len() == 0 {
        0
    } else {
        digits_value(d.drop_last()) * 10 + digit_value(d.last())
    }
}

/// A segment without the one leading `+` that an unsigned integer may carry.
pub open spec fn unsigned_part(seg: Seq<char>) -> Seq<char> {
    if seg.len() > 0 && seg[0] == '+' {
        seg.drop_first()
    } else {
        seg
    }
}

/// The value of one segment: the `u64` it spells, or zero where it spells none
/// (empty, a stray character, or too large).
pub open spec fn segment_value(seg: Seq<char>) -> int {
    let d = unsigned_part(seg);
    if d.len() > 0 && all_digits(d) && digits_value(d) <= u64::MAX {
        digits_value(d)
    } else {
        0
    }
}

/// The pieces of `s` between the dots; an empty string is one empty piece.
pub open spec fn segments(s: Seq<char>) -> Seq<Seq<char>>
    decreases s.len(),
{
    if s.len() == 0 {
        seq![Seq::empty()]
    } else {
        let p = segments(s.drop_last());
        if s.last() == '.' {
            p.push(Seq::empty())
        } else {
            p.update(p.len() - 1, p.last().push(s.last()))
        }
    }
}

/// The numeric key of a version identifier, one integer per segment.
pub open spec fn version_key(s: Seq<char>) -> Seq<int> {
    segments(s).map_values(|seg: Seq<char>| segment_value(seg))
}

/// The order on version identifiers.
pub open spec fn version_cmp(a: Seq<char>, b: Seq<char>) -> Ordering {
    seq_cmp(version_key(a), version_key(b))
}

pub open spec fn version_le(a: Seq<char>, b: Seq<char>) -> bool {
    version_cmp(a, b) != Ordering::Greater
}

proof fn lemma_segments_nonempty(s: Seq<char>)
    ensures
        segments(s).len() >= 1,
    decreases s.len(),
{
    if s.len() > 0 {
        lemma_segments_nonempty(s.drop_last());
    }
}

proof fn lemma_digits_nonneg(d: Seq<char>)
    requires
        all_digits(d),
    ensures
        digits_value(d) >= 0,
    decreases d.len(),
{
    if d.len() > 0 {
        lemma_digits_nonneg(d.drop_last());
    }
}

pub open spec fn key_ints(v: Seq<u64>) -> Seq<int> {
    v.map_values(|x: u64| x as int)
}

/// The numeric key of `s`, computed in one pass over its characters.
fn version_key_of(s: &str) -> (r: Vec<u64>)
    ensures
        key_ints(r@) == version_key(s@),
{
    let n = s.unicode_len();
    let mut keys: Vec<u64> = Vec::new();
    let ghost mut cur: Seq<char> = Seq::empty();
    // the state of the segment read so far
    let mut started = false;
    let mut has_digits = false;
    let mut ok = true;
    let mut big = false;
    let mut val: u64 = 0;
    let mut i: usize = 0;
    while i < n
        invariant
            n == s@.len(),
            0 <= i <= n,
            segments(s@.subrange(0, i as int)).len() == keys@.len() + 1,
            forall|k: int|
                0 <= k < keys@.len() ==> keys@[k] as int == segment_value(
                    #[trigger] segments(s@.subrange(0, i as int))[k],
                ),
            cur == segments(s@.subrange(0, i as int)).last(),
            started == (cur.len() > 0),
            has_digits == (unsigned_part(cur).len() > 0),
            ok == all_digits(unsigned_part(cur)),
            ok ==> (big == (digits_value(unsigned_part(cur)) > u64::MAX)),
            ok && !big ==> val as int == digits_value(unsigned_part(cur)),
        decreases n - i,
    {
        let c = s.get_char(i);
        let ghost prev = s@.subrange(0, i as int);
        let ghost next = s@.subrange(0, i as int + 1);
        assert(next.drop_last() =~= prev);
        assert(next.last() == c);
        proof {
            lemma_segments_nonempty(prev);
        }
        if c == '.' {
            let v: u64 = if has_digits && ok && !big { val } else { 0 };
            keys.push(v);
            proof {
                cur = Seq::empty();
            }
            started = false;
            has_digits = false;
            ok = true;
            big = false;
            val = 0;
        } else {
            let ghost ncur = cur.push(c);
            if !started {
                assert(cur =~= Seq::<char>::empty());
                if c == '+' {
                    assert(unsigned_part(ncur) =~= Seq::<char>::empty());
                    has_digits = false;
                    ok = true;
                    big = false;
                    val = 0;
                } else {
                    assert(unsigned_part(ncur) =~= seq![c]);
                    assert(seq![c].drop_last() =~= Seq::<char>::empty());
                    has_digits = true;
                    ok = '0' <= c && c <= '9';
                    big = false;
                    if ok {
                        val = (c as u64) - ('0' as u64);
                    }
                }
                started = true;
            } else {
                let ghost ud = unsigned_part(cur);
                assert(unsigned_part(ncur) =~= ud.push(c));
                assert(ud.push(c).drop_last() =~= ud);
                has_digits = true;
                let digit_ok = '0' <= c && c <= '9';
                if ok && digit_ok {
                    proof {
                        lemma_digits_nonneg(ud);
                    }
                    let d: u64 = (c as u64) - ('0' as u64);
                    if !big {
                        if val <= (u64::MAX - d) / 10 {
                            assert(val * 10 + d <= u64::MAX) by (nonlinear_arith)
                                requires
                                    val <= (u64::MAX - d) / 10,
                                    d <= 9,
                            ;
                            val = val * 10 + d;
                        } else {
                            assert(val * 10 + d > u64::MAX) by (nonlinear_arith)
                                requires
                                    val > (u64::MAX - d) / 10,
                                    d <= 9,
                            ;
                            big = true;
                        }
                    } else {
                        assert(digits_value(ud) * 10 + d > u64::MAX) by (nonlinear_arith)
                            requires
                                digits_value(ud) > u64::MAX,
                                d <= 9,
                        ;
                    }
                } else {
                    if !digit_ok {
                        assert(!is_digit(ud.push(c)[ud.len() as int]));
                    } else {
                        assert(!all_digits(ud));
                        let ghost w = choose|j: int| 0 <= j < ud.len() && !is_digit(ud[j]);
                        assert(!is_digit(ud.push(c)[w]));
                    }
                }
                ok = ok && digit_ok;
            }
            proof {
                cur = ncur;
            }
        }
        i = i + 1;
    }
    proof {
        lemma_segments_nonempty(s@.subrange(0, i as int));
    }
    let v: u64 = if has_digits && ok && !big { val } else { 0 };
    keys.push(v);
    assert(s@.subrange(0, n as int) =~= s@);
    assert(key_ints(keys@) =~= version_key(s@));
    keys
}

/// Compares two version identifiers segment by segment; where all shared
/// segments are equal, the one with fewer segments is less.
pub fn compare_versions(a: &str, b: &str) -> (r: Ordering)
    ensures
        r == version_cmp(a@, b@),
{
    let ka = version_key_of(a);
    let kb = version_key_of(b);
    let ghost sa = key_ints(ka@);
    let ghost sb = key_ints(kb@);
    let mut i: usize = 0;
    while i < ka.len() && i < kb.len()
        invariant
            sa == key_ints(ka@),
            sb == key_ints(kb@),
            sa == version_key(a@),
            sb == version_key(b@),
            sa.len() == ka.len(),
            sb.len() == kb.len(),
            0 <= i <= ka.len(),
            i <= kb.len(),
            seq_cmp(sa, sb) == crate::order::cmp_from(sa, sb, i as int),
        decreases ka.len() - i,
    {
        assert(sa[i as int] == ka@[i as int] as int && sb[i as int] == kb@[i as int] as int);
        if ka[i] < kb[i] {
            assert(crate::order::cmp_from(sa, sb, i as int) == Ordering::Less);
            return Ordering::Less;
        } else if ka[i] > kb[i] {
            assert(crate::order::cmp_from(sa, sb, i as int) == Ordering::Greater);
            return Ordering::Greater;
        }
        i = i + 1;
    }
    if ka.len() < kb.len() {
        Ordering::Less
    } else if ka.len() > kb.len() {
        Ordering::Greater
    } else {
        Ordering::Equal
    }
}

/// The version order is total: every identifier equals itself, swapping the
/// arguments flips the outcome, and `<=` and `<` chain.
pub proof fn lemma_version_order(a: Seq<char>, b: Seq<char>, c: Seq<char>)
    ensures
        version_cmp(a, a) == Ordering::Equal,
        version_cmp(a, b) == flip(version_cmp(b, a)),
        version_cmp(a, b) == Ordering::Equal <==> version_key(a) == version_key(b),
        version_le(a, b) && version_le(b, c) ==> version_le(a, c),
        version_cmp(a, b) == Ordering::Less && version_le(b, c) ==> version_cmp(a, c)
            == Ordering::Less,
        version_le(a, b) && version_cmp(b, c) == Ordering::Less ==> version_cmp(a, c)
            == Ordering::Less,
{
    lemma_seq_cmp_order(version_key(a), version_key(b), version_key(c));
}

/// A sequence of identifiers in ascending version order.
pub open spec fn sorted_by_version(s: Seq<Seq<char>>) -> bool {
    forall|i: int, j: int| 0 <= i < j < s.len() ==> version_le(#[trigger] s[i], #[trigger] s[j])
}

/// `sorted` holds the identifiers of `items`, each as often, in ascending version order.
pub open spec fn is_version_sorting(sorted: Seq<Seq<char>>, items: Seq<Seq<char>>) -> bool {
    sorted.to_multiset() == items.to_multiset() && sorted_by_version(sorted)
}

/// Sorts identifiers in ascending version order.
pub fn sort_versions(items: &Vec<String>) -> (r: Vec<String>)
    ensures
        is_version_sorting(views_of(r@), views_of(items@)),
{
    broadcast use vstd::seq_lib::group_to_multiset_ensures;

    let mut out: Vec<String> = Vec::new();
    let mut k: usize = 0;
    assert(views_of(out@) =~= views_of(items@.subrange(0, 0)));
    while k < items.len()
        invariant
            0 <= k <= items.len(),
            views_of(out@).to_multiset() == views_of(items@.subrange(0, k as int)).to_multiset(),
            sorted_by_version(views_of(out@)),
        decreases items.len() - k,
    {
        let x = &items[k];
        let mut p: usize = 0;
        while p < out.len() && !matches!(compare_versions(x.as_str(), out[p].as_str()), Ordering::Less)
            invariant
                0 <= p <= out.len(),
                forall|q: int| 0 <= q < p ==> version_le(#[trigger] out@[q]@, x@),
            decreases out.len() - p,
        {
            proof {
                lemma_version_order(x@, out@[p as int]@, x@);
                assert(version_le(out@[p as int]@, x@));
            }
            p = p + 1;
        }
        let ghost old_out = out@;
        out.insert(p, x.clone());
        proof {
            let vo = views_of(old_out);
            let vn = views_of(out@);
            assert(vn =~= vo.insert(p as int, x@));
            vstd::seq_lib::to_multiset_insert(vo, p as int, x@);
            vstd::seq_lib::to_multiset_build(views_of(items@.subrange(0, k as int)), x@);
            assert(views_of(items@.subrange(0, k as int + 1)) =~= views_of(
                items@.subrange(0, k as int),
            ).push(x@));
            assert forall|j: int| p < j < vn.len() implies version_cmp(x@, #[trigger] vn[j])
                == Ordering::Less by {
                assert(vn[j] == vo[j - 1]);
                if j - 1 > p {
                    assert(version_le(vo[p as int], vo[j - 1]));
                    lemma_version_order(x@, vo[p as int], vo[j - 1]);
                }
            }
            assert forall|i: int, j: int| 0 <= i < j < vn.len() implies version_le(
                #[trigger] vn[i],
                #[trigger] vn[j],
            ) by {
                if i < p && j == p {
                    assert(vn[i] == vo[i]);
                } else if i == p && j > p {
                } else if i < p && j > p {
                    assert(vn[i] == vo[i]);
                    lemma_version_order(vo[i], x@, vn[j]);
                } else if i > p {
                    assert(vn[i] == vo[i - 1]);
                    assert(vn[j] == vo[j - 1]);
                } else {
                    assert(vn[i] == vo[i]);
                    assert(vn[j] == vo[j]);
                }
            }
        }
        k = k + 1;
    }
    assert(items@.subrange(0, k as int) =~= items@);
    out
}

/// The directory names that can be installed builds: those starting with `1`.
pub open spec fn build_candidates(names: Seq<Seq<char>>) -> Seq<Seq<char>>
    decreases names.len(),
{
    if names.len() == 0 {
        Seq::empty()
    } else {
        let rest = build_candidates(names.drop_last());
        let x = names.last();
        if x.len() > 0 && x[0] == '1' {
            rest.push(x)
        } else {
            rest
        }
    }
}

/// The newest installed build among the names of an installation directory:
/// the last, in version order, of the names that start with `1`; `None` when
/// there is no such name.
pub fn latest_version(names: &Vec<String>) -> (r: Option<String>)
    ensures
        r is None <==> build_candidates(views_of(names@)).len() == 0,
        r matches Some(v) ==> exists|s: Seq<Seq<char>>|
            is_version_sorting(s, build_candidates(views_of(names@))) && s.len() > 0 && v@
                == s.last(),
{
    let mut cands: Vec<String> = Vec::new();
    let mut i: usize = 0;
    while i < names.len()
        invariant
            0 <= i <= names.len(),
            views_of(cands@) == build_candidates(views_of(names@.subrange(0, i as int))),
        decreases names.len() - i,
    {
        let name = &names[i];
        let ghost pre = views_of(names@.subrange(0, i as int));
        assert(views_of(names@.subrange(0, i as int + 1)).drop_last() =~= pre);
        if name.as_str().unicode_len() > 0 && name.as_str().get_char(0) == '1' {
            cands.push(name.clone());
            assert(views_of(cands@) =~= build_candidates(views_of(names@.subrange(0, i as int + 1))));
        }
        i = i + 1;
    }
    assert(names@.subrange(0, i as int) =~= names@);
    if cands.len() == 0 {
        return None;
    }
    let sorted = sort_versions(&cands);
    proof {
        vstd::seq_lib::to_multiset_len(views_of(sorted@));
        vstd::seq_lib::to_multiset_len(views_of(cands@));
    }
    let last = sorted[sorted.len() - 1].clone();
    assert(last@ == views_of(sorted@).last());
    Some(last)
}

} // verus!
