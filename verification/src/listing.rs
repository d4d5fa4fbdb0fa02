//! Listing a map from float widths to float types in increasing width order.

use vstd::prelude::*;
use std::collections::BTreeMap;
use vstd::std_specs::cmp::OrdSpec;
use vstd::std_specs::iter::IteratorSpec;

verus! {

/// `s` lists the entries of `widths` in strictly increasing width order.
pub open spec fn is_width_listing(widths: Map<u32, u32>, s: Seq<(u32, u32)>) -> bool {
    &&& forall|i: int, j: int| 0 <= i < j < s.len() ==> s[i].0 < s[j].0
    &&& forall|i: int|
        0 <= i < s.len() ==> widths.contains_key(#[trigger] s[i].0) && widths[s[i].0] == s[i].1
    &&& forall|w: u32| #[trigger]
        widths.contains_key(w) ==> exists|i: int| 0 <= i < s.len() && s[i].0 == w
}

/// The entries of `widths` in increasing width order.
pub open spec fn width_listing(widths: Map<u32, u32>) -> Seq<(u32, u32)> {
    choose|s: Seq<(u32, u32)>| is_width_listing(widths, s)
}

/// A map has at most one listing in increasing width order.
pub proof fn lemma_width_listing_unique(widths: Map<u32, u32>, s1: Seq<(u32, u32)>, s2: Seq<(u32, u32)>)
    requires
        is_width_listing(widths, s1),
        is_width_listing(widths, s2),
    ensures
        s1 == s2,
    decreases s1.len() + s2.len(),
{
    if s1.len() == 0 || s2.len() == 0 {
        if s1.len() > 0 {
            assert(widths.contains_key(s1[0].0));
        }
        if s2.len() > 0 {
            assert(widths.contains_key(s2[0].0));
        }
        assert(s1 =~= s2);
    } else {
        let k1 = s1[0].0;
        let k2 = s2[0].0;
        assert(widths.contains_key(k1));
        assert(widths.contains_key(k2));
        let i1 = choose|i: int| 0 <= i < s1.len() && s1[i].0 == k2;
        let i2 = choose|i: int| 0 <= i < s2.len() && s2[i].0 == k1;
        if i1 > 0 {
            assert(s1[0].0 < s1[i1].0);
        }
        if i2 > 0 {
            assert(s2[0].0 < s2[i2].0);
        }
        assert(k1 == k2);
        let rest = widths.remove(k1);
        let t1 = s1.drop_first();
        let t2 = s2.drop_first();
        assert forall|w: u32| #[trigger] rest.contains_key(w) implies exists|i: int|
            0 <= i < t1.len() && t1[i].0 == w by {
            let i = choose|i: int| 0 <= i < s1.len() && s1[i].0 == w;
            assert(i > 0);
            assert(t1[i - 1].0 == w);
        }
        assert forall|w: u32| #[trigger] rest.contains_key(w) implies exists|i: int|
            0 <= i < t2.len() && t2[i].0 == w by {
            let i = choose|i: int| 0 <= i < s2.len() && s2[i].0 == w;
            assert(i > 0);
            assert(t2[i - 1].0 == w);
        }
        assert forall|i: int| 0 <= i < t1.len() implies rest.contains_key(#[trigger] t1[i].0)
            && rest[t1[i].0] == t1[i].1 by {
            assert(t1[i] == s1[i + 1]);
            assert(s1[0].0 < s1[i + 1].0);
        }
        assert forall|i: int| 0 <= i < t2.len() implies rest.contains_key(#[trigger] t2[i].0)
            && rest[t2[i].0] == t2[i].1 by {
            assert(t2[i] == s2[i + 1]);
            assert(s2[0].0 < s2[i + 1].0);
        }
        assert forall|i: int, j: int| 0 <= i < j < t1.len() implies t1[i].0 < t1[j].0 by {
            assert(t1[i] == s1[i + 1] && t1[j] == s1[j + 1]);
        }
        assert forall|i: int, j: int| 0 <= i < j < t2.len() implies t2[i].0 < t2[j].0 by {
            assert(t2[i] == s2[i + 1] && t2[j] == s2[j + 1]);
        }
        lemma_width_listing_unique(rest, t1, t2);
        assert(s1[0] == s2[0]);
        assert(s1 =~= seq![s1[0]] + t1);
        assert(s2 =~= seq![s2[0]] + t2);
    }
}

proof fn lemma_u32_set_max(s: Set<u32>)
    requires
        s.finite(),
        s.len() > 0,
    ensures
        exists|m: u32| s.contains(m) && forall|x: u32| #[trigger] s.contains(x) ==> x <= m,
    decreases s.len(),
{
    let x = s.choose();
    let rest = s.remove(x);
    if rest.len() == 0 {
        assert forall|y: u32| #[trigger] s.contains(y) implies y <= x by {
            if y != x {
                assert(rest.contains(y));
            }
        }
    } else {
        lemma_u32_set_max(rest);
        let m = choose|m: u32| rest.contains(m) && forall|y: u32| #[trigger] rest.contains(y) ==> y <= m;
        let top = if x > m { x } else { m };
        assert forall|y: u32| #[trigger] s.contains(y) implies y <= top by {
            if y != x {
                assert(rest.contains(y));
            }
        }
        assert(s.contains(top));
    }
}

/// Every map with finitely many widths has a listing in increasing width
/// order.
pub proof fn lemma_width_listing_exists(widths: Map<u32, u32>)
    requires
        widths.dom().finite(),
    ensures
        is_width_listing(widths, width_listing(widths)),
    decreases widths.dom().len(),
{
    if widths.dom().len() == 0 {
        let s = Seq::<(u32, u32)>::empty();
        assert forall|w: u32| #[trigger] widths.contains_key(w) implies exists|i: int|
            0 <= i < s.len() && s[i].0 == w by {
            assert(widths.dom().contains(w));
        }
        assert(is_width_listing(widths, s));
    } else {
        lemma_u32_set_max(widths.dom());
        let top = choose|m: u32| widths.dom().contains(m) && forall|x: u32| #[trigger] widths.dom().contains(x) ==> x <= m;
        let rest = widths.remove(top);
        assert(rest.dom() =~= widths.dom().remove(top));
        lemma_width_listing_exists(rest);
        let r = width_listing(rest);
        let s = r.push((top, widths[top]));
        assert forall|i: int, j: int| 0 <= i < j < s.len() implies s[i].0 < s[j].0 by {
            if j < r.len() {
                assert(s[i] == r[i] && s[j] == r[j]);
            } else {
                assert(s[i] == r[i]);
                assert(rest.contains_key(r[i].0));
                assert(widths.dom().contains(r[i].0));
            }
        }
        assert forall|i: int| 0 <= i < s.len() implies widths.contains_key(#[trigger] s[i].0)
            && widths[s[i].0] == s[i].1 by {
            if i < r.len() {
                assert(s[i] == r[i]);
                assert(rest.contains_key(r[i].0));
            }
        }
        assert forall|w: u32| #[trigger] widths.contains_key(w) implies exists|i: int|
            0 <= i < s.len() && s[i].0 == w by {
            if w == top {
                assert(s[s.len() - 1].0 == w);
            } else {
                assert(rest.contains_key(w));
                let i = choose|i: int| 0 <= i < r.len() && r[i].0 == w;
                assert(s[i] == r[i]);
            }
        }
        assert(is_width_listing(widths, s));
    }
}

/// A listing has one entry per width of the map.
pub proof fn lemma_width_listing_len(widths: Map<u32, u32>, s: Seq<(u32, u32)>)
    requires
        is_width_listing(widths, s),
    ensures
        s.len() == widths.dom().len(),
{
    let ks = s.map_values(|x: (u32, u32)| x.0);
    assert forall|i: int, j: int| 0 <= i < ks.len() && 0 <= j < ks.len() && i != j implies ks[i]
        != ks[j] by {
        if i < j {
            assert(s[i].0 < s[j].0);
        } else {
            assert(s[j].0 < s[i].0);
        }
    }
    assert(ks.no_duplicates());
    ks.unique_seq_to_set();
    assert forall|w: u32| ks.to_set().contains(w) <==> widths.dom().contains(w) by {
        if widths.dom().contains(w) {
            assert(widths.contains_key(w));
            let i = choose|i: int| 0 <= i < s.len() && s[i].0 == w;
            assert(ks[i] == w);
        }
        if ks.to_set().contains(w) {
            let i = choose|i: int| 0 <= i < ks.len() && ks[i] == w;
            assert(widths.contains_key(s[i].0));
        }
    }
    assert(ks.to_set() =~= widths.dom());
}

/// The entries of a width map in increasing width order.
pub fn sorted_widths(widths: &BTreeMap<u32, u32>) -> (out: Vec<(u32, u32)>)
    ensures
        out@ == width_listing(widths@),
{
    let mut out: Vec<(u32, u32)> = Vec::new();
    let iter = widths.iter();
    let ghost rem = iter.remaining();
    proof {
        let ks = rem.map_values(|kv: (&u32, &u32)| *kv.0);
        assert forall|i: int, j: int| 0 <= i < j < rem.len() implies *rem[i].0 < *rem[j].0 by {
            assert(ks[i].cmp_spec(&ks[j]) is Less);
            assert(ks[i] == *rem[i].0);
            assert(ks[j] == *rem[j].0);
        }
    }
    for kv in it: iter
        invariant
            out@.len() == it.index(),
            it.seq() == rem,
            forall|i: int| 0 <= i < it.index() ==> out@[i] == (*rem[i].0, *rem[i].1),
            forall|i: int, j: int| 0 <= i < j < rem.len() ==> *rem[i].0 < *rem[j].0,
            forall|i: int|
                0 <= i < rem.len() ==> widths@.contains_key(*rem[i].0) && widths@[*rem[i].0]
                    == *rem[i].1,
            forall|w: u32| #[trigger]
                widths@.contains_key(w) ==> exists|i: int| 0 <= i < rem.len() && *rem[i].0 == w,
    {
        let (w, t) = kv;
        out.push((*w, *t));
    }
    proof {
        assert forall|w: u32| #[trigger] widths@.contains_key(w) implies exists|i: int|
            0 <= i < out@.len() && out@[i].0 == w by {
            let i = choose|i: int| 0 <= i < rem.len() && *rem[i].0 == w;
            assert(out@[i].0 == w);
        }
        assert(is_width_listing(widths@, out@));
        lemma_width_listing_unique(widths@, out@, width_listing(widths@));
    }
    out
}

} // verus!
