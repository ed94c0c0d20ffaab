use vstd::prelude::*;

verus! {

/// Number of pages (or batches) that `total` items occupy when grouped
/// `per_chunk` at a time: the ceiling of `total / per_chunk`.
pub open spec fn spec_num_chunks(total: nat, per_chunk: nat) -> nat
    recommends
        per_chunk > 0,
{
    if total % per_chunk == 0 {
        total / per_chunk
    } else {
        total / per_chunk + 1
    }
}

/// Length of the chunk at position `i`: the full `per_chunk` for every
/// chunk but possibly the last, which holds the remainder.
pub open spec fn spec_chunk_len(total: nat, per_chunk: nat, i: nat) -> nat
    recommends
        per_chunk > 0,
        i < spec_num_chunks(total, per_chunk),
{
    if (i + 1) * per_chunk <= total {
        per_chunk
    } else {
        (total - i * per_chunk) as nat
    }
}

/// Smallest page size ever requested under the paging workaround.
pub const QUIRK_PAGE_FLOOR: u64 = 1000;

/// True for the one cluster-version line whose paging behaviour needs the
/// workaround: a version string beginning "8.3".
pub open spec fn spec_version_quirky(v: Seq<u8>) -> bool {
    v.len() >= 3 && v[0] == 56 && v[1] == 46 && v[2] == 51
}

/// The page size actually requested: the configured size, except under the
/// quirky version line, where half the configured size is used, clamped to
/// a floor of `QUIRK_PAGE_FLOOR`.
pub open spec fn spec_effective_page_size(configured: u64, v: Seq<u8>) -> u64 {
    if spec_version_quirky(v) {
        if configured / 2 >= QUIRK_PAGE_FLOOR {
            configured / 2
        } else {
            QUIRK_PAGE_FLOOR
        }
    } else {
        configured
    }
}

/// Decide the page size to request from a cluster that reports version
/// string `version` when the operator configured `configured`.
pub fn effective_page_size(configured: u64, version: &Vec<u8>) -> (r: u64)
    ensures
        r == spec_effective_page_size(configured, version@),
{
    let quirky = version.len() >= 3 && version[0] == 56 && version[1] == 46 && version[2]
        == 51;
    if quirky {
        let half = configured / 2;
        if half >= QUIRK_PAGE_FLOOR {
            half
        } else {
            QUIRK_PAGE_FLOOR
        }
    } else {
        configured
    }
}

/// Sum of a sequence of page lengths.
pub open spec fn seq_u64_sum(s: Seq<u64>) -> int
    decreases s.len(),
{
    if s.len() == 0 {
        0
    } else {
        seq_u64_sum(s.drop_last()) + s.last()
    }
}

/// The ceiling count, computed without overflow.
pub fn num_chunks(total: u64, per_chunk: u64) -> (r: u64)
    requires
        per_chunk > 0,
    ensures
        r == spec_num_chunks(total as nat, per_chunk as nat),
{
    if total % per_chunk == 0 {
        total / per_chunk
    } else {
        proof {
            assert(per_chunk >= 2 && total / per_chunk <= total / 2) by (nonlinear_arith)
                requires
                    per_chunk > 0,
                    total % per_chunk != 0,
                    total >= 0,
            ;
        }
        total / per_chunk + 1
    }
}

/// Appending one length to a plan adds it to the plan's sum.
proof fn lemma_sum_push(s: Seq<u64>, x: u64)
    ensures
        seq_u64_sum(s.push(x)) == seq_u64_sum(s) + x,
{
    assert(s.push(x).drop_last() =~= s);
}

/// A full plan of `q` chunks of `per_chunk` followed by a remainder `m`
/// describes `q * per_chunk + m` items; both counts and lengths follow.
pub(crate) proof fn lemma_plan_shape(total: nat, per_chunk: nat, q: nat, m: nat)
    requires
        per_chunk > 0,
        total == q * per_chunk + m,
        0 <= m < per_chunk,
    ensures
        total / per_chunk == q,
        total % per_chunk == m,
        spec_num_chunks(total, per_chunk) == if m == 0 {
            q
        } else {
            q + 1
        },
        forall|i: nat| i < q ==> spec_chunk_len(total, per_chunk, i) == per_chunk,
        m != 0 ==> spec_chunk_len(total, per_chunk, q) == m,
{
    vstd::arithmetic::div_mod::lemma_fundamental_div_mod_converse(
        total as int,
        per_chunk as int,
        q as int,
        m as int,
    );
    assert forall|i: nat| i < q implies spec_chunk_len(total, per_chunk, i) == per_chunk by {
        assert((i + 1) * per_chunk <= q * per_chunk) by (nonlinear_arith)
            requires
                i + 1 <= q,
                per_chunk > 0,
        ;
    }
    if m != 0 {
        assert((q + 1) * per_chunk > total) by (nonlinear_arith)
            requires
                total == q * per_chunk + m,
                m < per_chunk,
        ;
        assert(total - q * per_chunk == m);
    }
}

/// The sequence of page lengths a paginated walk over `total` documents
/// performs when each page asks for `per_chunk` of them: full pages first,
/// then the remainder, and nothing for an empty collection.
pub fn chunk_plan(total: u64, per_chunk: u64) -> (r: Vec<u64>)
    requires
        per_chunk > 0,
    ensures
        r@.len() == spec_num_chunks(total as nat, per_chunk as nat),
        forall|i: int|
            0 <= i < r@.len() ==> r@[i] == spec_chunk_len(
                total as nat,
                per_chunk as nat,
                i as nat,
            ),
        seq_u64_sum(r@) == total,
{
    let mut r: Vec<u64> = Vec::new();
    let mut remaining: u64 = total;
    proof {
        assert(r@.len() * per_chunk == 0) by (nonlinear_arith)
            requires
                r@.len() == 0,
        ;
    }
    while remaining > per_chunk
        invariant
            per_chunk > 0,
            remaining <= total,
            r@.len() * per_chunk == total - remaining,
            seq_u64_sum(r@) == total - remaining,
            forall|i: int| 0 <= i < r@.len() ==> r@[i] == per_chunk,
        decreases remaining,
    {
        proof {
            lemma_sum_push(r@, per_chunk);
            assert((r@.len() + 1) * per_chunk == r@.len() * per_chunk + per_chunk)
                by (nonlinear_arith);
        }
        r.push(per_chunk);
        remaining = remaining - per_chunk;
    }
    let ghost q = r@.len();
    if remaining > 0 {
        proof {
            lemma_sum_push(r@, remaining);
        }
        r.push(remaining);
    }
    proof {
        if remaining == per_chunk {
            assert((q + 1) * per_chunk == q * per_chunk + per_chunk) by (nonlinear_arith);
            lemma_plan_shape(total as nat, per_chunk as nat, q + 1, 0);
        } else {
            lemma_plan_shape(total as nat, per_chunk as nat, q, remaining as nat);
        }
    }
    r
}

} // verus!
