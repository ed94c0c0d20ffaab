use vstd::prelude::*;
use crate::codec::push_all;
use crate::doc::{Doc, DocModel};
use crate::plan::{spec_num_chunks, spec_chunk_len};

verus! {

/// The views of a sequence of chunks.
pub open spec fn chunk_views<T>(cs: Seq<Vec<T>>) -> Seq<Seq<T>> {
    cs.map_values(|c: Vec<T>| c@)
}

/// Partition a sequence of items into batches of `size`, the last batch
/// possibly smaller; batch boundaries depend on the configured size and
/// the items' positions alone, and concatenating the batches in order
/// restores the input exactly.
pub fn chunks_of<T>(v: Vec<T>, size: usize) -> (r: Vec<Vec<T>>)
    requires
        size > 0,
    ensures
        r@.len() == spec_num_chunks(v@.len(), size as nat),
        forall|i: int|
            0 <= i < r@.len() ==> #[trigger] r@[i]@.len() == spec_chunk_len(
                v@.len(),
                size as nat,
                i as nat,
            ),
        chunk_views(r@).flatten() == v@,
{
    let ghost orig = v@;
    let mut rest = v;
    let mut r: Vec<Vec<T>> = Vec::new();
    proof {
        assert(r@.len() * size == 0) by (nonlinear_arith)
            requires
                r@.len() == 0,
        ;
        assert(chunk_views(r@) =~= Seq::<Seq<T>>::empty());
        assert(chunk_views(r@).flatten() + rest@ =~= orig);
    }
    while rest.len() > size
        invariant
            size > 0,
            rest@.len() <= orig.len(),
            r@.len() * size == orig.len() - rest@.len(),
            chunk_views(r@).flatten() + rest@ == orig,
            forall|i: int| 0 <= i < r@.len() ==> #[trigger] r@[i]@.len() == size,
        decreases rest@.len(),
    {
        let tail = rest.split_off(size);
        proof {
            assert((r@.len() + 1) * size == r@.len() * size + size) by (nonlinear_arith);
            chunk_views(r@).lemma_flatten_push(rest@);
            assert(chunk_views(r@.push(rest)) =~= chunk_views(r@).push(rest@));
            assert(chunk_views(r@).flatten() + rest@ + tail@ =~= orig);
        }
        r.push(rest);
        rest = tail;
    }
    let ghost q = r@.len();
    if rest.len() > 0 {
        proof {
            chunk_views(r@).lemma_flatten_push(rest@);
            assert(chunk_views(r@.push(rest)) =~= chunk_views(r@).push(rest@));
        }
        r.push(rest);
    } else {
        proof {
            assert(chunk_views(r@).flatten() + rest@ =~= chunk_views(r@).flatten());
        }
    }
    proof {
        let per = size as nat;
        if rest@.len() == per {
            assert((q + 1) * per == q * per + per) by (nonlinear_arith);
            crate::plan::lemma_plan_shape(orig.len(), per, q + 1, 0);
        } else {
            crate::plan::lemma_plan_shape(orig.len(), per, q, rest@.len());
        }
    }
    r
}

// ASCII pieces of one bulk action line, written as
// `{ "index": { "_index": "NAME", "_id": "ID" } }` followed by a newline,
// then the document's source object on its own line.
/// Bytes before the collection name in an action line.
pub open spec fn action_open() -> Seq<u8> {
    seq![
        123u8, 32u8, 34u8, 105u8, 110u8, 100u8, 101u8, 120u8, 34u8, 58u8, 32u8, 123u8, 32u8,
        34u8, 95u8, 105u8, 110u8, 100u8, 101u8, 120u8, 34u8, 58u8, 32u8, 34u8,
    ]
}

/// Bytes between the collection name and the identifier.
pub open spec fn action_mid() -> Seq<u8> {
    seq![34u8, 44u8, 32u8, 34u8, 95u8, 105u8, 100u8, 34u8, 58u8, 32u8, 34u8]
}

/// Bytes after the identifier, closing the action line.
pub open spec fn action_close() -> Seq<u8> {
    seq![34u8, 32u8, 125u8, 32u8, 125u8, 10u8]
}

/// The upsert action line for one document of a collection.
pub open spec fn bulk_action(index: Seq<u8>, id: Seq<u8>) -> Seq<u8> {
    action_open() + index + action_mid() + id + action_close()
}

/// Both lines a document contributes to a bulk request body.
pub open spec fn bulk_line(index: Seq<u8>, d: DocModel) -> Seq<u8> {
    bulk_action(index, d.id) + d.source + seq![10u8]
}

/// The whole newline-delimited body of one bulk request.
pub open spec fn bulk_body(index: Seq<u8>, ds: Seq<DocModel>) -> Seq<u8>
    decreases ds.len(),
{
    if ds.len() == 0 {
        Seq::empty()
    } else {
        bulk_body(index, ds.drop_last()) + bulk_line(index, ds.last())
    }
}

/// Append the opening of an action line.
fn push_action_open(out: &mut Vec<u8>)
    ensures
        final(out)@ == old(out)@ + action_open(),
{
    out.push(123);
    out.push(32);
    out.push(34);
    out.push(105);
    out.push(110);
    out.push(100);
    out.push(101);
    out.push(120);
    out.push(34);
    out.push(58);
    out.push(32);
    out.push(123);
    out.push(32);
    out.push(34);
    out.push(95);
    out.push(105);
    out.push(110);
    out.push(100);
    out.push(101);
    out.push(120);
    out.push(34);
    out.push(58);
    out.push(32);
    out.push(34);
    assert(out@ =~= old(out)@ + action_open());
}

/// Append the middle of an action line.
fn push_action_mid(out: &mut Vec<u8>)
    ensures
        final(out)@ == old(out)@ + action_mid(),
{
    out.push(34);
    out.push(44);
    out.push(32);
    out.push(34);
    out.push(95);
    out.push(105);
    out.push(100);
    out.push(34);
    out.push(58);
    out.push(32);
    out.push(34);
    assert(out@ =~= old(out)@ + action_mid());
}

/// Append the close of an action line.
fn push_action_close(out: &mut Vec<u8>)
    ensures
        final(out)@ == old(out)@ + action_close(),
{
    out.push(34);
    out.push(32);
    out.push(125);
    out.push(32);
    out.push(125);
    out.push(10);
    assert(out@ =~= old(out)@ + action_close());
}

/// Build the single request body that replays one batch: per document an
/// upsert action line naming the collection and the identifier, then the
/// document's source object on the next line.
pub fn build_bulk_body(index: &Vec<u8>, batch: &Vec<Doc>) -> (r: Vec<u8>)
    ensures
        r@ == bulk_body(index@, batch@.map_values(|d: Doc| d@)),
{
    let ghost models = batch@.map_values(|d: Doc| d@);
    let mut out: Vec<u8> = Vec::new();
    let mut i: usize = 0;
    while i < batch.len()
        invariant
            i <= batch@.len(),
            models == batch@.map_values(|d: Doc| d@),
            out@ == bulk_body(index@, models.take(i as int)),
        decreases batch@.len() - i,
    {
        proof {
            assert(models.take(i + 1).drop_last() =~= models.take(i as int));
            assert(models.take(i + 1).last() == batch@[i as int]@);
        }
        push_action_open(&mut out);
        push_all(&mut out, index);
        push_action_mid(&mut out);
        push_all(&mut out, &batch[i].id);
        push_action_close(&mut out);
        push_all(&mut out, &batch[i].source);
        out.push(10);
        proof {
            assert(out@ =~= bulk_body(index@, models.take(i + 1)));
        }
        i = i + 1;
    }
    proof {
        assert(models.take(models.len() as int) =~= models);
    }
    out
}

/// The model of one item-level error: its reported type and reason.
pub struct ItemErrorModel {
    pub etype: Seq<u8>,
    pub reason: Seq<u8>,
}

/// One item-level error a bulk response reported.
pub struct ItemError {
    pub etype: Vec<u8>,
    pub reason: Vec<u8>,
}

impl View for ItemError {
    type V = ItemErrorModel;

    open spec fn view(&self) -> ItemErrorModel {
        ItemErrorModel { etype: self.etype@, reason: self.reason@ }
    }
}

/// An item error logged as `type: reason`.
pub open spec fn item_error_text(e: ItemErrorModel) -> Seq<u8> {
    e.etype + seq![58u8, 32u8] + e.reason
}

/// The descriptions of the first `cap` item errors among a response's
/// items (an item without an error contributes nothing).
pub open spec fn first_error_texts(items: Seq<Option<ItemErrorModel>>, cap: nat) -> Seq<Seq<u8>>
    decreases items.len(),
{
    if items.len() == 0 || cap == 0 {
        Seq::empty()
    } else {
        match items[0] {
            Option::None => first_error_texts(items.drop_first(), cap),
            Option::Some(e) => seq![item_error_text(e)] + first_error_texts(
                items.drop_first(),
                (cap - 1) as nat,
            ),
        }
    }
}

/// At most this many item-level error descriptions are kept per batch.
pub const MAX_LOGGED_ITEM_ERRORS: u64 = 5;

/// What one bulk response amounted to. Item-level errors never abort a
/// batch: the batch completes with at most five warnings kept. Only a
/// non-success status for the whole request aborts the collection's
/// import.
pub enum BatchOutcome {
    BatchAborted,
    BatchCompleted { warnings: Vec<Vec<u8>> },
}

/// One bulk response, reduced to what the importer reads: whether the
/// request as a whole succeeded, the response's top-level error flag, and
/// per item the error it reported, if any.
pub struct BulkReply {
    pub status_ok: bool,
    pub errors_flag: bool,
    pub items: Vec<Option<ItemError>>,
}

/// The views of the reply's items.
pub open spec fn item_views(items: Seq<Option<ItemError>>) -> Seq<Option<ItemErrorModel>> {
    items.map_values(
        |o: Option<ItemError>|
            match o {
                Option::None => Option::<ItemErrorModel>::None,
                Option::Some(e) => Option::Some(e@),
            },
    )
}

/// Judge one batch's response: a failed request aborts the collection's
/// import; a successful one completes the batch, carrying the first five
/// item-level error descriptions as warnings (none unless the response
/// flagged errors).
pub fn assess_bulk_reply(reply: &BulkReply) -> (r: BatchOutcome)
    ensures
        !reply.status_ok ==> r == BatchOutcome::BatchAborted,
        reply.status_ok ==> (r matches BatchOutcome::BatchCompleted { warnings } && (
        if reply.errors_flag {
            warnings@.map_values(|w: Vec<u8>| w@) == first_error_texts(
                item_views(reply.items@),
                MAX_LOGGED_ITEM_ERRORS as nat,
            )
        } else {
            warnings@.len() == 0
        })),
{
    if !reply.status_ok {
        return BatchOutcome::BatchAborted;
    }
    let mut warnings: Vec<Vec<u8>> = Vec::new();
    if reply.errors_flag {
        let ghost ivs = item_views(reply.items@);
        proof {
            assert(ivs.skip(0) =~= ivs);
            assert(warnings@.map_values(|w: Vec<u8>| w@) =~= Seq::<Seq<u8>>::empty());
            assert(Seq::<Seq<u8>>::empty() + first_error_texts(ivs, MAX_LOGGED_ITEM_ERRORS as nat)
                =~= first_error_texts(ivs, MAX_LOGGED_ITEM_ERRORS as nat));
        }
        let mut i: usize = 0;
        while i < reply.items.len()
            invariant
                i <= reply.items@.len(),
                ivs == item_views(reply.items@),
                warnings@.len() <= MAX_LOGGED_ITEM_ERRORS,
                first_error_texts(ivs, MAX_LOGGED_ITEM_ERRORS as nat) == warnings@.map_values(
                    |w: Vec<u8>| w@,
                ) + first_error_texts(
                    ivs.skip(i as int),
                    (MAX_LOGGED_ITEM_ERRORS - warnings@.len()) as nat,
                ),
            decreases reply.items@.len() - i,
        {
            let ghost cap = (MAX_LOGGED_ITEM_ERRORS - warnings@.len()) as nat;
            proof {
                assert(ivs.skip(i as int).drop_first() =~= ivs.skip(i + 1));
                assert(ivs.skip(i as int)[0] == ivs[i as int]);
            }
            match &reply.items[i] {
                Option::None => {
                },
                Option::Some(e) => {
                    if warnings.len() < 5 {
                        let mut text: Vec<u8> = Vec::new();
                        push_all(&mut text, &e.etype);
                        text.push(58);
                        text.push(32);
                        push_all(&mut text, &e.reason);
                        proof {
                            assert(text@ =~= item_error_text(ivs[i as int]->Some_0));
                            assert(warnings@.push(text).map_values(|w: Vec<u8>| w@) =~= warnings@
                                .map_values(|w: Vec<u8>| w@).push(text@));
                        }
                        warnings.push(text);
                    } else {
                        proof {
                            assert(first_error_texts(ivs.skip(i as int), 0) =~= Seq::<
                                Seq<u8>,
                            >::empty());
                            assert(first_error_texts(ivs.skip(i + 1), 0) =~= Seq::<
                                Seq<u8>,
                            >::empty());
                        }
                    }
                },
            }
            i = i + 1;
        }
        proof {
            assert(ivs.skip(ivs.len() as int) =~= Seq::<Option<ItemErrorModel>>::empty());
        }
    }
    BatchOutcome::BatchCompleted { warnings }
}

/// Per-collection import progress: one unit per completed batch, bounded
/// by the expected batch count computed from the document count and the
/// configured batch size.
pub struct ImportProgress {
    /// Batches the import is expected to issue.
    pub expected: u64,
    /// Batches completed so far.
    pub done: u64,
}

impl ImportProgress {
    pub open spec fn wf(self) -> bool {
        self.done <= self.expected
    }

    /// Start counting towards `expected` batches.
    pub fn new(expected: u64) -> (r: ImportProgress)
        ensures
            r.wf(),
            r.expected == expected,
            r.done == 0,
    {
        ImportProgress { expected, done: 0 }
    }

    /// Record one completed batch.
    pub fn record_batch(&mut self)
        requires
            old(self).wf(),
            old(self).done < old(self).expected,
        ensures
            final(self).wf(),
            final(self).expected == old(self).expected,
            final(self).done == old(self).done + 1,
    {
        self.done = self.done + 1;
    }

    /// Whether every expected batch completed.
    pub fn is_complete(&self) -> (r: bool)
        ensures
            r == (self.done == self.expected),
    {
        self.done == self.expected
    }
}

} // verus!
