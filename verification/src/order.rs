//! The canonical order of members: ascending by key, whatever order they
//! were supplied in.

use vstd::prelude::*;

verus! {

/// What has a 32-bit key by which it is ordered and found.
pub trait Keyed {
    spec fn key_of(&self) -> u32;

    fn key(&self) -> (k: u32)
        ensures
            k == self.key_of(),
    ;
}

/// The keys ascend strictly, so none occurs twice.
pub open spec fn ascending<T: Keyed>(s: Seq<T>) -> bool {
    forall|i: int, j: int| 0 <= i < j < s.len() ==> s[i].key_of() < s[j].key_of()
}

/// Every item of `a` is an item of `b`.
pub open spec fn contained<T>(a: Seq<T>, b: Seq<T>) -> bool {
    forall|k: int| 0 <= k < a.len() ==> b.contains(#[trigger] a[k])
}

/// The two sequences hold the same items.
pub open spec fn same_members<T>(a: Seq<T>, b: Seq<T>) -> bool {
    contained(a, b) && contained(b, a)
}

/// Two items at different places have the same key.
pub open spec fn has_duplicate_key<T: Keyed>(s: Seq<T>) -> bool {
    exists|i: int, j: int| 0 <= i < j < s.len() && #[trigger] s[i].key_of() == #[trigger] s[j].key_of()
}

/// The items in canonical order, ascending by key; `None` where two items
/// have the same key.
pub fn arrange<T: Keyed>(items: Vec<T>) -> (r: Option<Vec<T>>)
    ensures
        r is None <==> has_duplicate_key(items@),
        r matches Some(out) ==> ascending(out@) && same_members(out@, items@) && out@.len()
            == items@.len(),
{
    let ghost all = items@;
    let mut rest = items;
    let mut out: Vec<T> = Vec::new();
    let ghost mut perm: Seq<int> = Seq::empty();
    while rest.len() > 0
        invariant
            all == items@,
            rest@.len() <= all.len(),
            rest@ == all.subrange(0, rest@.len() as int),
            out@.len() == perm.len(),
            out@.len() == all.len() - rest@.len(),
            ascending(out@),
            forall|k: int|
                0 <= k < perm.len() ==> rest@.len() <= #[trigger] perm[k] < all.len() && out@[k]
                    == all[perm[k]],
            forall|i: int| rest@.len() <= i < all.len() ==> #[trigger] perm.contains(i),
        decreases rest@.len(),
    {
        let ghost m = rest@.len() - 1;
        let x = rest.pop().unwrap();
        proof {
            assert(x == all[m]);
            assert(rest@ =~= all.subrange(0, m));
        }
        let key: u32 = x.key();
        let mut p: usize = 0;
        while p < out.len() && out[p].key() < key
            invariant
                p <= out@.len(),
                key == x.key_of(),
                forall|q: int| 0 <= q < p ==> out@[q].key_of() < key,
            decreases out.len() - p,
        {
            p = p + 1;
        }
        if p < out.len() && out[p].key() == key {
            proof {
                let j = perm[p as int];
                assert(out@[p as int] == all[j]);
                assert(m < j < all.len());
                assert(all[m].key_of() == all[j].key_of());
            }
            return None;
        }
        let ghost before = out@;
        let ghost old_perm = perm;
        out.insert(p, x);
        proof {
            perm = old_perm.insert(p as int, m);
            assert forall|i: int, j: int| 0 <= i < j < out@.len() implies out@[i].key_of()
                < out@[j].key_of() by {
                if i < p && j > p {
                    assert(out@[i] == before[i]);
                    assert(out@[j] == before[j - 1]);
                } else if i < p && j < p {
                    assert(out@[i] == before[i]);
                    assert(out@[j] == before[j]);
                } else if i > p {
                    assert(out@[i] == before[i - 1]);
                    assert(out@[j] == before[j - 1]);
                } else if i == p {
                    assert(out@[j] == before[j - 1]);
                    assert(before[p as int].key_of() > key || j - 1 > p);
                }
            }
            assert forall|k: int| 0 <= k < perm.len() implies m <= #[trigger] perm[k] < all.len()
                && out@[k] == all[perm[k]] by {
                if k < p {
                    assert(perm[k] == old_perm[k]);
                } else if k > p {
                    assert(perm[k] == old_perm[k - 1]);
                }
            }
            assert forall|i: int| m <= i < all.len() implies #[trigger] perm.contains(i) by {
                if i == m {
                    assert(perm[p as int] == m);
                } else {
                    assert(old_perm.contains(i));
                    let k0 = choose|k: int| 0 <= k < old_perm.len() && #[trigger] old_perm[k] == i;
                    if k0 < p {
                        assert(perm[k0] == i);
                    } else {
                        assert(perm[k0 + 1] == i);
                    }
                }
            }
        }
    }
    proof {
        assert forall|k: int| 0 <= k < out@.len() implies all.contains(#[trigger] out@[k]) by {
            assert(all[perm[k]] == out@[k]);
        }
        assert forall|i: int| 0 <= i < all.len() implies out@.contains(#[trigger] all[i]) by {
            assert(perm.contains(i));
            let k0 = choose|k: int| 0 <= k < perm.len() && #[trigger] perm[k] == i;
            assert(out@[k0] == all[i]);
        }
        if has_duplicate_key(all) {
            let (i, j) = choose|i: int, j: int|
                0 <= i < j < all.len() && #[trigger] all[i].key_of() == #[trigger] all[j].key_of();
            assert(perm.contains(i));
            assert(perm.contains(j));
            let ki = choose|k: int| 0 <= k < perm.len() && #[trigger] perm[k] == i;
            let kj = choose|k: int| 0 <= k < perm.len() && #[trigger] perm[k] == j;
            assert(out@[ki] == all[i]);
            assert(out@[kj] == all[j]);
            assert(ki != kj);
            if ki < kj {
                assert(out@[ki].key_of() < out@[kj].key_of());
            } else {
                assert(out@[kj].key_of() < out@[ki].key_of());
            }
        }
    }
    Some(out)
}

/// Canonical field order: two arrangements that ascend by key and hold the
/// same items are the same arrangement. So whatever order the members of a
/// record are supplied in, they are written in one order.
pub proof fn law_canonical_order<T: Keyed>(a: Seq<T>, b: Seq<T>)
    requires
        ascending(a),
        ascending(b),
        same_members(a, b),
    ensures
        a == b,
    decreases a.len(),
{
    if a.len() == 0 {
        if b.len() > 0 {
            assert(a.contains(b[0]));
        }
        assert(a =~= b);
    } else {
        let la = a.len() - 1;
        assert(b.contains(a[0]));
        let lb = b.len() - 1;
        assert(b.contains(a[la]));
        assert(a.contains(b[lb]));
        let ma = choose|m: int| 0 <= m < b.len() && #[trigger] b[m] == a[la];
        let mb = choose|m: int| 0 <= m < a.len() && #[trigger] a[m] == b[lb];
        assert(a[la].key_of() <= b[lb].key_of()) by {
            if ma < lb {
                assert(b[ma].key_of() < b[lb].key_of());
            }
        }
        assert(b[lb].key_of() <= a[la].key_of()) by {
            if mb < la {
                assert(a[mb].key_of() < a[la].key_of());
            }
        }
        assert(ma == lb) by {
            if ma < lb {
                assert(b[ma].key_of() < b[lb].key_of());
            }
        }
        assert(a[la] == b[lb]);
        let a0 = a.drop_last();
        let b0 = b.drop_last();
        assert forall|k: int| 0 <= k < a0.len() implies b0.contains(#[trigger] a0[k]) by {
            assert(b.contains(a[k]));
            let m = choose|m: int| 0 <= m < b.len() && #[trigger] b[m] == a[k];
            assert(a[k].key_of() < a[la].key_of());
            assert(m != lb);
            assert(b0[m] == a0[k]);
        }
        assert forall|k: int| 0 <= k < b0.len() implies a0.contains(#[trigger] b0[k]) by {
            assert(a.contains(b[k]));
            let m = choose|m: int| 0 <= m < a.len() && #[trigger] a[m] == b[k];
            assert(b[k].key_of() < b[lb].key_of());
            assert(m != la);
            assert(a0[m] == b0[k]);
        }
        assert(ascending(a0)) by {
            assert forall|i: int, j: int| 0 <= i < j < a0.len() implies a0[i].key_of()
                < a0[j].key_of() by {
                assert(a[i].key_of() < a[j].key_of());
            }
        }
        assert(ascending(b0)) by {
            assert forall|i: int, j: int| 0 <= i < j < b0.len() implies b0[i].key_of()
                < b0[j].key_of() by {
                assert(b[i].key_of() < b[j].key_of());
            }
        }
        law_canonical_order(a0, b0);
        assert(a =~= a0.push(a[la]));
        assert(b =~= b0.push(b[lb]));
    }
}

} // verus!
