use vstd::prelude::*;
use vstd::seq_lib::lemma_multiset_commutative;
use vstd::multiset::Multiset;

verus! {

/// The views of a list of collection names.
pub open spec fn name_views(ns: Seq<Vec<u8>>) -> Seq<Seq<u8>> {
    ns.map_values(|n: Vec<u8>| n@)
}

/// A system or hidden collection: its name begins with the reserved dot.
pub open spec fn is_system_name(n: Seq<u8>) -> bool {
    n.len() > 0 && n[0] == 46
}

/// A name survives the name filters when it is neither reserved nor on
/// the configured skip-list.
pub open spec fn name_eligible(n: Seq<u8>, skip: Seq<Seq<u8>>) -> bool {
    !is_system_name(n) && !skip.contains(n)
}

/// Whether two byte strings hold the same bytes.
fn bytes_eq(a: &Vec<u8>, b: &Vec<u8>) -> (r: bool)
    ensures
        r == (a@ == b@),
{
    if a.len() != b.len() {
        return false;
    }
    let mut i: usize = 0;
    while i < a.len()
        invariant
            a@.len() == b@.len(),
            i <= a@.len(),
            forall|j: int| 0 <= j < i ==> a@[j] == b@[j],
        decreases a@.len() - i,
    {
        if a[i] != b[i] {
            return false;
        }
        i = i + 1;
    }
    proof {
        assert(a@ =~= b@);
    }
    true
}

/// Whether `n` occurs in the skip-list.
fn in_list(n: &Vec<u8>, list: &Vec<Vec<u8>>) -> (r: bool)
    ensures
        r == name_views(list@).contains(n@),
{
    let mut i: usize = 0;
    while i < list.len()
        invariant
            i <= list@.len(),
            forall|j: int| 0 <= j < i ==> name_views(list@)[j] != n@,
        decreases list@.len() - i,
    {
        if bytes_eq(n, &list[i]) {
            proof {
                assert(name_views(list@)[i as int] == n@);
            }
            return true;
        }
        i = i + 1;
    }
    false
}

/// Apply the name filters in order: drop reserved (dot-prefixed) names
/// and names on the skip-list, keeping the rest in their reported order.
pub fn filter_names(names: Vec<Vec<u8>>, skip: &Vec<Vec<u8>>) -> (r: Vec<Vec<u8>>)
    ensures
        name_views(r@) == name_views(names@).filter(
            |n: Seq<u8>| name_eligible(n, name_views(skip@)),
        ),
{
    let ghost orig = name_views(names@);
    let ghost pred = |n: Seq<u8>| name_eligible(n, name_views(skip@));
    let mut rest = names;
    let mut r: Vec<Vec<u8>> = Vec::new();
    let ghost mut k: int = 0;
    proof {
        assert(orig.take(0) =~= Seq::<Seq<u8>>::empty());
        assert(name_views(rest@) =~= orig.skip(0));
        assert(name_views(r@) =~= orig.take(0).filter(pred));
    }
    while rest.len() > 0
        invariant
            0 <= k <= orig.len(),
            name_views(rest@) == orig.skip(k),
            name_views(r@) == orig.take(k).filter(pred),
            pred == (|n: Seq<u8>| name_eligible(n, name_views(skip@))),
        decreases rest@.len(),
    {
        let ghost prev_rest = rest@;
        let n = rest.remove(0);
        proof {
            assert(name_views(prev_rest).len() == prev_rest.len());
            assert(orig.skip(k)[0] == orig[k]);
            assert(name_views(prev_rest)[0] == n@);
            assert(n@ == orig[k]);
            assert(rest@ =~= prev_rest.drop_first());
            assert forall|t: int| 0 <= t < rest@.len() implies name_views(rest@)[t] == orig.skip(
                k + 1,
            )[t] by {
                assert(name_views(rest@)[t] == rest@[t]@);
                assert(prev_rest[t + 1]@ == name_views(prev_rest)[t + 1]);
                assert(name_views(prev_rest)[t + 1] == orig.skip(k)[t + 1]);
            }
            assert(name_views(rest@) =~= orig.skip(k + 1));
            assert(orig.take(k + 1).drop_last() =~= orig.take(k));
            assert(orig.take(k + 1).last() == orig[k]);
        }
        let system = n.len() > 0 && {
            let b = n[0];
            b == 46
        };
        let keep = !system && !in_list(&n, skip);
        proof {
            assert(keep == pred(n@));
            reveal_with_fuel(Seq::filter, 2);
            assert(orig.take(k + 1).filter(pred) == if pred(orig[k]) {
                orig.take(k).filter(pred).push(orig[k])
            } else {
                orig.take(k).filter(pred)
            });
        }
        if keep {
            let ghost prev_r = r@;
            r.push(n);
            proof {
                assert(name_views(r@) =~= name_views(prev_r).push(orig[k]));
            }
        }
        proof {
            k = k + 1;
        }
    }
    proof {
        assert(orig.take(orig.len() as int) =~= orig);
    }
    r
}

/// Whether a collection stays under the size threshold: kept when the
/// size could not be determined (fail-open) or when its size in whole
/// megabytes does not exceed the configured maximum.
pub const BYTES_PER_MB: u64 = 1024 * 1024;

pub open spec fn spec_size_kept(size: Option<u64>, max_mb: u64) -> bool {
    match size {
        Option::None => true,
        Option::Some(bytes) => bytes / BYTES_PER_MB <= max_mb,
    }
}

/// The names that survive the size filter, in order.
pub open spec fn spec_size_filtered(
    names: Seq<Seq<u8>>,
    sizes: Seq<Option<u64>>,
    max_mb: u64,
) -> Seq<Seq<u8>>
    decreases names.len(),
{
    if names.len() == 0 {
        Seq::empty()
    } else {
        (if spec_size_kept(sizes[0], max_mb) {
            seq![names[0]]
        } else {
            Seq::empty()
        }) + spec_size_filtered(names.drop_first(), sizes.drop_first(), max_mb)
    }
}

/// Apply the size threshold: `sizes[i]` reports the on-disk size looked
/// up for `names[i]`, `None` where the lookup failed; a collection over
/// the threshold is dropped, one of unknown size is kept.
pub fn apply_size_filter(names: Vec<Vec<u8>>, sizes: &Vec<Option<u64>>, max_mb: u64) -> (r: Vec<
    Vec<u8>,
>)
    requires
        names@.len() == sizes@.len(),
    ensures
        name_views(r@) == spec_size_filtered(name_views(names@), sizes@, max_mb),
{
    let ghost onames = name_views(names@);
    let ghost osizes = sizes@;
    let ghost goal = spec_size_filtered(onames, osizes, max_mb);
    let mut rest = names;
    let mut r: Vec<Vec<u8>> = Vec::new();
    let total_n = sizes.len();
    let mut idx: usize = 0;
    let ghost mut k: int = 0;
    proof {
        assert(name_views(rest@) =~= onames.skip(0));
        assert(name_views(r@) =~= Seq::<Seq<u8>>::empty());
        assert(Seq::<Seq<u8>>::empty() + spec_size_filtered(onames.skip(0), osizes.skip(0), max_mb)
            =~= spec_size_filtered(onames.skip(0), osizes.skip(0), max_mb));
        assert(onames.skip(0) =~= onames);
        assert(osizes.skip(0) =~= osizes);
    }
    while rest.len() > 0
        invariant
            0 <= k <= onames.len(),
            idx as int == k,
            osizes == sizes@,
            osizes.len() == total_n,
            onames.len() == osizes.len(),
            name_views(rest@) == onames.skip(k),
            goal == name_views(r@) + spec_size_filtered(onames.skip(k), osizes.skip(k), max_mb),
            goal == spec_size_filtered(onames, osizes, max_mb),
        decreases rest@.len(),
    {
        let ghost prev_rest = rest@;
        let n = rest.remove(0);
        let ghost i = k;
        proof {
            assert(name_views(prev_rest).len() == prev_rest.len());
            assert(onames.skip(i)[0] == onames[i]);
            assert(name_views(prev_rest)[0] == n@);
            assert(n@ == onames[i]);
            assert(rest@ =~= prev_rest.drop_first());
            assert forall|t: int| 0 <= t < rest@.len() implies name_views(rest@)[t] == onames.skip(
                i + 1,
            )[t] by {
                assert(name_views(rest@)[t] == rest@[t]@);
                assert(prev_rest[t + 1]@ == name_views(prev_rest)[t + 1]);
                assert(name_views(prev_rest)[t + 1] == onames.skip(i)[t + 1]);
            }
            assert(name_views(rest@) =~= onames.skip(i + 1));
            assert(onames.skip(i).drop_first() =~= onames.skip(i + 1));
            assert(osizes.skip(i).drop_first() =~= osizes.skip(i + 1));
            assert(onames.skip(i)[0] == onames[i]);
            assert(osizes.skip(i)[0] == osizes[i]);
            assert(prev_rest.len() > 0);
            assert(onames.skip(i).len() == onames.len() - i);
            assert(i < onames.len());
            assert(osizes.len() == sizes@.len());
            assert(idx as int == i);
            assert(idx < sizes@.len());
        }
        let keep = match sizes[idx] {
            Option::None => true,
            Option::Some(bytes) => bytes / BYTES_PER_MB <= max_mb,
        };
        proof {
            assert(sizes@[idx as int] == osizes[i]);
            assert(keep == spec_size_kept(osizes[i], max_mb));
            if keep {
                assert(spec_size_filtered(onames.skip(i), osizes.skip(i), max_mb) =~= seq![
                    onames[i],
                ] + spec_size_filtered(onames.skip(i + 1), osizes.skip(i + 1), max_mb));
            } else {
                assert(spec_size_filtered(onames.skip(i), osizes.skip(i), max_mb)
                    =~= spec_size_filtered(onames.skip(i + 1), osizes.skip(i + 1), max_mb));
            }
        }
        if keep {
            let ghost prev_r = r@;
            r.push(n);
            proof {
                assert(name_views(r@) =~= name_views(prev_r).push(onames[i]));
                assert(name_views(prev_r).push(onames[i]) + spec_size_filtered(
                    onames.skip(i + 1),
                    osizes.skip(i + 1),
                    max_mb,
                ) =~= name_views(prev_r) + (seq![onames[i]] + spec_size_filtered(
                    onames.skip(i + 1),
                    osizes.skip(i + 1),
                    max_mb,
                )));
            }
        }
        proof {
            assert(idx < total_n);
        }
        idx = idx + 1;
        proof {
            k = k + 1;
        }
    }
    proof {
        assert(onames.skip(onames.len() as int) =~= Seq::<Seq<u8>>::empty());
        assert(name_views(r@) + Seq::<Seq<u8>>::empty() =~= name_views(r@));
    }
    r
}

/// A list of names in lexicographic order.
pub open spec fn names_sorted(s: Seq<Seq<u8>>) -> bool {
    forall|i: int, j: int| 0 <= i < j < s.len() ==> lex_le(#[trigger] s[i], #[trigger] s[j])
}

/// Byte-wise lexicographic order on names, the order the discovered list
/// is sorted by.
pub open spec fn lex_le(a: Seq<u8>, b: Seq<u8>) -> bool
    decreases a.len(),
{
    if a.len() == 0 {
        true
    } else if b.len() == 0 {
        false
    } else if a[0] < b[0] {
        true
    } else if a[0] > b[0] {
        false
    } else {
        lex_le(a.drop_first(), b.drop_first())
    }
}

/// Lexicographic order is total.
pub proof fn lemma_lex_total(a: Seq<u8>, b: Seq<u8>)
    ensures
        lex_le(a, b) || lex_le(b, a),
    decreases a.len(),
{
    if a.len() > 0 && b.len() > 0 && a[0] == b[0] {
        lemma_lex_total(a.drop_first(), b.drop_first());
    }
}

/// Lexicographic order is transitive.
pub proof fn lemma_lex_trans(a: Seq<u8>, b: Seq<u8>, c: Seq<u8>)
    requires
        lex_le(a, b),
        lex_le(b, c),
    ensures
        lex_le(a, c),
    decreases a.len(),
{
    if a.len() > 0 && b.len() > 0 && c.len() > 0 && a[0] == b[0] && b[0] == c[0] {
        lemma_lex_trans(a.drop_first(), b.drop_first(), c.drop_first());
    }
}

/// Compare the suffixes of two names from position `i` on.
fn lex_le_from(a: &Vec<u8>, b: &Vec<u8>, i: usize) -> (r: bool)
    requires
        i <= a@.len(),
        i <= b@.len(),
    ensures
        r == lex_le(a@.skip(i as int), b@.skip(i as int)),
    decreases a@.len() - i,
{
    proof {
        if i < a@.len() {
            assert(a@.skip(i as int)[0] == a@[i as int]);
            assert(a@.skip(i as int).drop_first() =~= a@.skip(i + 1));
        }
        if i < b@.len() {
            assert(b@.skip(i as int)[0] == b@[i as int]);
            assert(b@.skip(i as int).drop_first() =~= b@.skip(i + 1));
        }
    }
    if i == a.len() {
        true
    } else if i == b.len() {
        false
    } else if a[i] < b[i] {
        true
    } else if a[i] > b[i] {
        false
    } else {
        lex_le_from(a, b, i + 1)
    }
}

/// Whether `a` sorts at or before `b`.
pub fn lex_le_bytes(a: &Vec<u8>, b: &Vec<u8>) -> (r: bool)
    ensures
        r == lex_le(a@, b@),
{
    proof {
        assert(a@.skip(0) =~= a@);
        assert(b@.skip(0) =~= b@);
    }
    lex_le_from(a, b, 0)
}

/// Sort the discovered names lexicographically for deterministic
/// scheduling: the result is ordered and holds exactly the same names.
pub fn sort_names(names: Vec<Vec<u8>>) -> (r: Vec<Vec<u8>>)
    ensures
        names_sorted(name_views(r@)),
        name_views(r@).to_multiset() == name_views(names@).to_multiset(),
{
    let ghost orig = name_views(names@);
    let mut rest = names;
    let mut out: Vec<Vec<u8>> = Vec::new();
    proof {
        assert(name_views(rest@) =~= orig);
        assert(name_views(out@) =~= Seq::<Seq<u8>>::empty());
        name_views(out@).to_multiset_ensures();
        name_views(rest@).to_multiset_ensures();
        assert(name_views(out@).to_multiset().add(name_views(rest@).to_multiset())
            =~= orig.to_multiset());
    }
    while rest.len() > 0
        invariant
            names_sorted(name_views(out@)),
            name_views(out@).to_multiset().add(name_views(rest@).to_multiset())
                == orig.to_multiset(),
        decreases rest@.len(),
    {
        let ghost prev_rest = rest@;
        let x = rest.remove(0);
        proof {
            assert(name_views(prev_rest)[0] == x@);
            assert(name_views(prev_rest).drop_first() =~= name_views(rest@));
            assert(seq![x@] + name_views(rest@) =~= name_views(prev_rest));
            lemma_multiset_commutative(seq![x@], name_views(rest@));
            assert(seq![x@] =~= Seq::<Seq<u8>>::empty().push(x@));
            Seq::<Seq<u8>>::empty().to_multiset_ensures();
            assert(seq![x@].to_multiset() =~= Multiset::<Seq<u8>>::empty().insert(x@));
        }
        let mut j: usize = 0;
        while j < out.len() && lex_le_bytes(&out[j], &x)
            invariant
                j <= out@.len(),
                forall|t: int| 0 <= t < j ==> lex_le(name_views(out@)[t], x@),
            decreases out@.len() - j,
        {
            proof {
                assert(name_views(out@)[j as int] == out@[j as int]@);
            }
            j = j + 1;
        }
        let ghost prev_out = out@;
        proof {
            if j < out@.len() {
                lemma_lex_total(out@[j as int]@, x@);
            }
        }
        out.insert(j, x);
        proof {
            let pv = name_views(prev_out);
            let nv = name_views(out@);
            assert(nv =~= pv.take(j as int) + seq![x@] + pv.skip(j as int));
            // Every element before the insertion point sorts at or
            // before the new one; every element after sorts at or after.
            assert forall|t: int| 0 <= t < nv.len() && t != j implies (t < j ==> lex_le(
                nv[t],
                x@,
            )) && (t > j ==> lex_le(x@, nv[t])) by {
                if t < j {
                    assert(nv[t] == pv[t]);
                } else if t > j {
                    assert(nv[t] == pv[t - 1]);
                    if t - 1 > j {
                        assert(lex_le(pv[j as int], pv[t - 1]));
                        lemma_lex_trans(x@, pv[j as int], pv[t - 1]);
                    }
                }
            }
            assert forall|s: int, t: int|
                0 <= s < t < nv.len() implies #[trigger] lex_le(nv[s], nv[t]) by {
                if s == j {
                    assert(lex_le(x@, nv[t]));
                } else if t == j {
                    assert(lex_le(nv[s], x@));
                } else if s < j && t > j {
                    lemma_lex_trans(nv[s], x@, nv[t]);
                } else if t < j {
                    assert(nv[s] == pv[s] && nv[t] == pv[t]);
                    assert(lex_le(pv[s], pv[t]));
                } else {
                    assert(nv[s] == pv[s - 1] && nv[t] == pv[t - 1]);
                    assert(lex_le(pv[s - 1], pv[t - 1]));
                }
            }
            assert(names_sorted(nv));
            // The inserted name joins the multiset.
            lemma_multiset_commutative(pv.take(j as int) + seq![x@], pv.skip(j as int));
            lemma_multiset_commutative(pv.take(j as int), seq![x@]);
            lemma_multiset_commutative(pv.take(j as int), pv.skip(j as int));
            assert(pv.take(j as int) + pv.skip(j as int) =~= pv);
            assert(nv.to_multiset() =~= pv.to_multiset().add(seq![x@].to_multiset()));
        }
    }
    proof {
        assert(name_views(rest@) =~= Seq::<Seq<u8>>::empty());
        name_views(rest@).to_multiset_ensures();
        assert(name_views(out@).to_multiset().add(name_views(rest@).to_multiset())
            =~= name_views(out@).to_multiset());
    }
    out
}

} // verus!
